//! Which faces each primitive subsumes.
//!
//! Every primitive owns its faces twice over: as a set of a [`Dsu`], whose
//! representative is the id of the primitive, and as a ring, a cyclic linked
//! list through `next`. Merging two primitives links the sets and splices the
//! rings by exchanging two pointers.

use crate::dsu::{Dsu, relabel};
use vstd::prelude::*;

verus! {

/// The first `count` faces met when following `next` from `start`.
pub open spec fn walk(next: Seq<u32>, start: u32, count: nat) -> Seq<u32>
    decreases count,
{
    if count == 0 {
        Seq::empty()
    } else {
        seq![start] + walk(next, next[start as int], (count - 1) as nat)
    }
}

/// Each element of `s` is followed by the next one, the last by the first.
pub open spec fn is_ring(next: Seq<u32>, s: Seq<u32>) -> bool {
    &&& s.len() > 0
    &&& forall|i: int| 0 <= i < s.len() ==> (#[trigger] s[i]) < next.len()
    &&& forall|i: int|
        0 <= i < s.len() ==> next[#[trigger] s[i] as int] == s[if i + 1 < s.len() { i + 1 } else { 0 }]
}

/// Walking a ring once around lists it.
pub proof fn lemma_walk_ring(next: Seq<u32>, s: Seq<u32>)
    requires
        is_ring(next, s),
    ensures
        walk(next, s[0], s.len()) == s,
{
    lemma_walk_chain(next, s);
}

proof fn lemma_walk_chain(next: Seq<u32>, s: Seq<u32>)
    requires
        s.len() > 0,
        forall|i: int| 0 <= i < s.len() - 1 ==> next[#[trigger] s[i] as int] == s[i + 1],
    ensures
        walk(next, s[0], s.len()) == s,
    decreases s.len(),
{
    if s.len() == 1 {
        reveal_with_fuel(walk, 2);
        assert(walk(next, s[0], 1) =~= s);
    } else {
        let rest = s.subrange(1, s.len() as int);
        assert forall|i: int| 0 <= i < rest.len() - 1 implies next[#[trigger] rest[i] as int] == rest[i
            + 1] by {
            assert(rest[i] == s[i + 1]);
        }
        lemma_walk_chain(next, rest);
        assert(next[s[0] as int] == s[1]);
        assert(walk(next, s[0], s.len()) =~= s);
    }
}

/// A list without repetition of numbers below `n` has at most `n` entries.
pub proof fn lemma_distinct_bounded(s: Seq<u32>, n: nat)
    requires
        s.no_duplicates(),
        forall|i: int| 0 <= i < s.len() ==> (#[trigger] s[i]) < n,
    ensures
        s.len() <= n,
    decreases n,
{
    if n == 0 {
        if s.len() > 0 {
            assert(s[0] < 0);
        }
    } else if exists|k: int| 0 <= k < s.len() && s[k] == n - 1 {
        let k = choose|k: int| 0 <= k < s.len() && s[k] == n - 1;
        let rest = s.remove(k);
        assert forall|i: int| 0 <= i < rest.len() implies (#[trigger] rest[i]) < n - 1 by {
            let j = if i < k { i } else { i + 1 };
            assert(rest[i] == s[j]);
            assert(s[j] != s[k]);
        }
        assert forall|i: int, j: int| 0 <= i < rest.len() && 0 <= j < rest.len() && i != j implies rest[i]
            != rest[j] by {
            let i2 = if i < k { i } else { i + 1 };
            let j2 = if j < k { j } else { j + 1 };
            assert(rest[i] == s[i2] && rest[j] == s[j2]);
        }
        lemma_distinct_bounded(rest, (n - 1) as nat);
    } else {
        assert forall|i: int| 0 <= i < s.len() implies (#[trigger] s[i]) < n - 1 by {
            assert(s[i] < n);
        }
        lemma_distinct_bounded(s, (n - 1) as nat);
    }
}

/// Follows the ring of a primitive from `start`, listing `count` faces.
pub fn walk_faces(start: u32, count: u32, face_next: &Vec<u32>) -> (faces: Vec<u32>)
    requires
        count > 0 ==> start < face_next@.len(),
        forall|i: int| 0 <= i < face_next@.len() ==> (#[trigger] face_next@[i]) < face_next@.len(),
    ensures
        faces@ == walk(face_next@, start, count as nat),
        faces@.len() == count,
{
    let mut faces: Vec<u32> = Vec::new();
    let mut current: u32 = start;
    let mut remaining: u32 = count;
    while remaining > 0
        invariant
            remaining <= count,
            faces@.len() == count - remaining,
            remaining > 0 ==> current < face_next@.len(),
            forall|i: int| 0 <= i < face_next@.len() ==> (#[trigger] face_next@[i]) < face_next@.len(),
            faces@ + walk(face_next@, current, remaining as nat) == walk(face_next@, start, count as nat),
        decreases remaining,
    {
        let ghost before = faces@;
        faces.push(current);
        proof {
            let tail = walk(face_next@, face_next@[current as int], (remaining - 1) as nat);
            assert(faces@ + tail =~= before + (seq![current] + tail));
        }
        current = face_next[current as usize];
        remaining -= 1;
    }
    assert(faces@ + Seq::<u32>::empty() =~= faces@);
    faces
}

/// What [`FaceRings`] stands for: for every face the primitive that owns it,
/// and for every primitive its faces in ring order.
pub struct RingsView {
    pub owner: Seq<u32>,
    pub ring: Seq<Seq<u32>>,
}

impl RingsView {
    pub open spec fn len(self) -> nat {
        self.owner.len()
    }

    /// One primitive per face.
    pub open spec fn singletons(n: nat) -> RingsView {
        RingsView {
            owner: Seq::new(n, |i: int| i as u32),
            ring: Seq::new(n, |i: int| seq![i as u32]),
        }
    }

    /// `p` is the id of a primitive: it owns itself.
    pub open spec fn is_root(self, p: u32) -> bool {
        p < self.owner.len() && self.owner[p as int] == p
    }

    /// Owners are primitives, and the ring of each primitive starts at its
    /// own id and lists exactly the faces that it owns, each once. What owns
    /// nothing has an empty ring.
    pub open spec fn consistent(self) -> bool {
        &&& self.ring.len() == self.owner.len()
        &&& forall|f: int| 0 <= f < self.len() ==> self.is_root(#[trigger] self.owner[f])
        &&& forall|p: u32|
            self.is_root(p) ==> {
                &&& (#[trigger] self.ring[p as int]).len() > 0
                &&& self.ring[p as int][0] == p
                &&& self.ring[p as int].no_duplicates()
            }
        &&& forall|p: u32| p < self.len() && !self.is_root(p) ==> (#[trigger] self.ring[p as int]).len() == 0
        &&& forall|p: u32, i: int|
            self.is_root(p) && 0 <= i < self.ring[p as int].len() ==> {
                &&& (#[trigger] self.ring[p as int][i]) < self.len()
                &&& self.owner[self.ring[p as int][i] as int] == p
            }
        &&& forall|f: u32|
            f < self.len() ==> self.ring[self.owner[f as int] as int].contains(f)
    }

    /// Primitive `a` takes over the faces of primitive `b`.
    pub open spec fn spliced(self, a: u32, b: u32) -> RingsView {
        RingsView {
            owner: relabel(self.owner, b, a),
            ring: self.ring.update(a as int, spliced_ring(self.ring[a as int], self.ring[b as int])).update(
                b as int,
                Seq::empty(),
            ),
        }
    }

    /// The partition into the given groups; the first face of each group is
    /// its primitive.
    pub open spec fn is_grouping(self, groups: Seq<Seq<u32>>) -> bool {
        &&& self.consistent()
        &&& forall|g: int, i: int|
            0 <= g < groups.len() && 0 <= i < groups[g].len() ==> self.owner[#[trigger] groups[g][i] as int]
                == groups[g][0]
        &&& forall|g: int|
            0 <= g < groups.len() && groups[g].len() > 0 ==> self.ring[(#[trigger] groups[g])[0] as int]
                == groups[g]
    }
}

/// The ring that results from exchanging the successors of the first faces
/// of two rings: the head of `ra`, then `rb` from its second face around to
/// its head, then the rest of `ra`.
pub open spec fn spliced_ring(ra: Seq<u32>, rb: Seq<u32>) -> Seq<u32> {
    seq![ra[0]] + rb.subrange(1, rb.len() as int) + seq![rb[0]] + ra.subrange(1, ra.len() as int)
}

/// The groups cover the faces below `nf`, each face exactly once.
pub open spec fn is_partition(groups: Seq<Seq<u32>>, nf: nat) -> bool {
    &&& forall|g: int, i: int|
        0 <= g < groups.len() && 0 <= i < groups[g].len() ==> (#[trigger] groups[g][i]) < nf
    &&& forall|g: int, i: int, h: int, j: int|
        0 <= g < groups.len() && 0 <= i < groups[g].len() && 0 <= h < groups.len() && 0 <= j
            < groups[h].len() && (#[trigger] groups[g][i]) == (#[trigger] groups[h][j]) ==> g == h && i == j
    &&& forall|f: u32| f < nf ==> #[trigger] in_some_group(groups, f)
}

pub open spec fn in_some_group(groups: Seq<Seq<u32>>, f: u32) -> bool {
    exists|g: int, i: int| 0 <= g < groups.len() && 0 <= i < groups[g].len() && #[trigger] groups[g][i] == f
}

/// The lists held by a vector of vectors.
pub open spec fn lists(v: Seq<Vec<u32>>) -> Seq<Seq<u32>> {
    Seq::new(v.len(), |i: int| v[i]@)
}

/// Splicing two rings of a consistent partition gives a consistent partition.
pub proof fn law_splice_keeps_partition(v: RingsView, a: u32, b: u32)
    requires
        v.consistent(),
        v.is_root(a),
        v.is_root(b),
        a != b,
    ensures
        v.spliced(a, b).consistent(),
        v.spliced(a, b).ring[a as int].len() == v.ring[a as int].len() + v.ring[b as int].len(),
        forall|p: u32| v.spliced(a, b).is_root(p) <==> v.is_root(p) && p != b,
{
    let w = v.spliced(a, b);
    let ra = v.ring[a as int];
    let rb = v.ring[b as int];
    let s = spliced_ring(ra, rb);
    assert(s.len() == ra.len() + rb.len());
    assert(w.ring[a as int] == s);
    assert forall|i: int| 0 <= i < s.len() implies (#[trigger] s[i]) < v.len() && (v.owner[s[i] as int]
        == a || v.owner[s[i] as int] == b) by {
        lemma_spliced_index(ra, rb, i);
    }
    assert(s.no_duplicates()) by {
        assert forall|i: int, j: int| 0 <= i < s.len() && 0 <= j < s.len() && i != j implies s[i] != s[j] by {
            lemma_spliced_index(ra, rb, i);
            lemma_spliced_index(ra, rb, j);
        }
    }
    assert forall|f: int| 0 <= f < w.len() implies w.is_root(#[trigger] w.owner[f]) by {
        assert(v.is_root(v.owner[f]));
    }
    assert forall|f: u32| f < w.len() implies w.ring[w.owner[f as int] as int].contains(f) by {
        assert(v.ring[v.owner[f as int] as int].contains(f));
        let o = v.owner[f as int];
        if o == a {
            let i = choose|i: int| 0 <= i < ra.len() && ra[i] == f;
            if i == 0 {
                assert(s[0] == f);
            } else {
                assert(s[rb.len() + i] == f);
            }
        } else if o == b {
            let i = choose|i: int| 0 <= i < rb.len() && rb[i] == f;
            if i == 0 {
                assert(s[rb.len() as int] == f);
            } else {
                assert(s[i] == f);
            }
        }
    }
    assert forall|p: u32, i: int| w.is_root(p) && 0 <= i < w.ring[p as int].len() implies {
        &&& (#[trigger] w.ring[p as int][i]) < w.len()
        &&& w.owner[w.ring[p as int][i] as int] == p
    } by {
        assert(v.is_root(p));
        if p != a {
            assert(v.owner[v.ring[p as int][i] as int] == p);
        }
    }
}

/// Where each face of a spliced ring comes from.
proof fn lemma_spliced_index(ra: Seq<u32>, rb: Seq<u32>, i: int)
    requires
        ra.len() > 0,
        rb.len() > 0,
        0 <= i < ra.len() + rb.len(),
    ensures
        spliced_ring(ra, rb).len() == ra.len() + rb.len(),
        i == 0 ==> spliced_ring(ra, rb)[i] == ra[0],
        0 < i < rb.len() ==> spliced_ring(ra, rb)[i] == rb[i],
        i == rb.len() ==> spliced_ring(ra, rb)[i] == rb[0],
        i > rb.len() ==> spliced_ring(ra, rb)[i] == ra[i - rb.len()],
{
}

/// No face is in the rings of two primitives.
proof fn lemma_rings_disjoint(v: RingsView, a: u32, b: u32)
    requires
        v.consistent(),
        v.is_root(a),
        v.is_root(b),
        a != b,
    ensures
        forall|i: int, j: int|
            0 <= i < v.ring[a as int].len() && 0 <= j < v.ring[b as int].len()
                ==> #[trigger] v.ring[a as int][i] != #[trigger] v.ring[b as int][j],
{
    assert forall|i: int, j: int| 0 <= i < v.ring[a as int].len() && 0 <= j < v.ring[b as int].len() implies #[trigger] v.ring[a as int][i]
        != #[trigger] v.ring[b as int][j] by {
        assert(v.owner[v.ring[a as int][i] as int] == a);
        assert(v.owner[v.ring[b as int][j] as int] == b);
    }
}

/// Exchanging the successors of the heads of two disjoint rings makes one
/// ring of them.
proof fn lemma_spliced_is_ring(next0: Seq<u32>, next1: Seq<u32>, ra: Seq<u32>, rb: Seq<u32>)
    requires
        is_ring(next0, ra),
        is_ring(next0, rb),
        ra.no_duplicates(),
        rb.no_duplicates(),
        forall|i: int, j: int| 0 <= i < ra.len() && 0 <= j < rb.len() ==> #[trigger] ra[i] != #[trigger] rb[j],
        next1 == next0.update(ra[0] as int, next0[rb[0] as int]).update(rb[0] as int, next0[ra[0] as int]),
    ensures
        is_ring(next1, spliced_ring(ra, rb)),
{
    let s = spliced_ring(ra, rb);
    assert(ra[0] != rb[0]);
    assert forall|i: int| 0 <= i < s.len() implies (#[trigger] s[i]) < next1.len() && next1[s[i] as int]
        == s[if i + 1 < s.len() { i + 1 } else { 0 }] by {
        let j = if i + 1 < s.len() { i + 1 } else { 0 };
        lemma_spliced_index(ra, rb, i);
        lemma_spliced_index(ra, rb, j);
        if i == 0 {
            assert(next0[rb[0] as int] == rb[if 1 < rb.len() { 1int } else { 0 }]);
        } else if i < rb.len() {
            assert(rb[i] != rb[0]);
            assert(ra[0] != rb[i]);
            assert(next0[rb[i] as int] == rb[if i + 1 < rb.len() { i + 1 } else { 0 }]);
        } else if i == rb.len() {
            assert(next0[ra[0] as int] == ra[if 1 < ra.len() { 1int } else { 0 }]);
        } else {
            let k = i - rb.len();
            assert(ra[k] != ra[0]);
            assert(ra[k] != rb[0]);
            assert(next0[ra[k] as int] == ra[if k + 1 < ra.len() { k + 1 } else { 0 }]);
        }
    }
}

/// The faces of every primitive: disjoint sets and rings, kept in step.
pub struct FaceRings {
    dsu: Dsu,
    next: Vec<u32>,
    ring: Ghost<Seq<Seq<u32>>>,
}

impl View for FaceRings {
    type V = RingsView;

    closed spec fn view(&self) -> RingsView {
        RingsView { owner: self.dsu@.rep, ring: self.ring@ }
    }
}

impl FaceRings {
    pub closed spec fn wf(&self) -> bool {
        &&& self.dsu.wf()
        &&& self@.consistent()
        &&& self.next@.len() == self@.len()
        &&& self@.len() <= u32::MAX
        &&& forall|p: u32| self@.is_root(p) ==> is_ring(self.next@, #[trigger] self@.ring[p as int])
    }

    /// What holds of the view of every well-formed value.
    pub proof fn lemma_view(&self)
        requires
            self.wf(),
        ensures
            self@.consistent(),
            self@.len() <= u32::MAX,
            forall|p: u32| self@.is_root(p) ==> (#[trigger] self@.ring[p as int]).len() <= self@.len(),
    {
        assert forall|p: u32| self@.is_root(p) implies (#[trigger] self@.ring[p as int]).len() <= self@.len() by {
            lemma_distinct_bounded(self@.ring[p as int], self@.len());
        }
    }

    /// One primitive per face.
    pub fn new(n: usize) -> (res: Self)
        requires
            n <= u32::MAX,
        ensures
            res.wf(),
            res@ == RingsView::singletons(n as nat),
    {
        let dsu = Dsu::new(n);
        let mut next: Vec<u32> = Vec::with_capacity(n);
        let mut i: u32 = 0;
        while i < n as u32
            invariant
                i <= n <= u32::MAX,
                next@.len() == i,
                forall|k: int| 0 <= k < i ==> next@[k] == k,
            decreases n - i,
        {
            next.push(i);
            i += 1;
        }
        let res = FaceRings { dsu, next, ring: Ghost(RingsView::singletons(n as nat).ring) };
        proof {
            assert(res@.owner =~= RingsView::singletons(n as nat).owner);
            assert forall|f: u32| f < res@.len() implies res@.ring[res@.owner[f as int] as int].contains(f) by {
                assert(res@.ring[f as int][0] == f);
            }
        }
        res
    }

    /// How many faces there are.
    pub fn len(&self) -> (n: usize)
        requires
            self.wf(),
        ensures
            n == self@.len(),
    {
        self.next.len()
    }

    /// The primitive that owns face `f`.
    pub fn owner(&mut self, f: u32) -> (p: u32)
        requires
            old(self).wf(),
            f < old(self)@.len(),
        ensures
            final(self).wf(),
            final(self)@ == old(self)@,
            p == old(self)@.owner[f as int],
    {
        self.dsu.find(f)
    }

    /// Whether `p` is a primitive, that is, owns itself.
    pub fn is_root(&self, p: u32) -> (b: bool)
        requires
            self.wf(),
            p < self@.len(),
        ensures
            b == self@.is_root(p),
    {
        self.dsu.is_root(p)
    }

    /// The faces of primitive `p`, which has `count` of them.
    pub fn faces(&self, p: u32, count: u32) -> (faces: Vec<u32>)
        requires
            self.wf(),
            self@.is_root(p),
            count == self@.ring[p as int].len(),
        ensures
            faces@ == self@.ring[p as int],
    {
        proof {
            self.lemma_next_in_range();
            lemma_walk_ring(self.next@, self@.ring[p as int]);
        }
        walk_faces(p, count, &self.next)
    }

    proof fn lemma_next_in_range(&self)
        requires
            self.wf(),
        ensures
            forall|i: int| 0 <= i < self.next@.len() ==> (#[trigger] self.next@[i]) < self.next@.len(),
    {
        assert forall|i: int| 0 <= i < self.next@.len() implies (#[trigger] self.next@[i])
            < self.next@.len() by {
            let f = i as u32;
            let p = self@.owner[i];
            assert(self@.is_root(p));
            let r = self@.ring[p as int];
            assert(r.contains(f));
            let k = choose|k: int| 0 <= k < r.len() && r[k] == f;
            let m = if k + 1 < r.len() { k + 1 } else { 0 };
            assert(self.next@[r[k] as int] == r[m]);
            assert(r[m] < self@.len());
        }
    }

    /// Primitive `a` takes over the faces of primitive `b`: the successors of
    /// the two root faces are exchanged, which joins the rings.
    pub fn splice(&mut self, a: u32, b: u32)
        requires
            old(self).wf(),
            old(self)@.is_root(a),
            old(self)@.is_root(b),
            a != b,
        ensures
            final(self).wf(),
            final(self)@ == old(self)@.spliced(a, b),
    {
        let ghost v = self@;
        let ghost next0 = self.next@;
        let tmp: u32 = self.next[a as usize];
        let after: u32 = self.next[b as usize];
        self.next.set(a as usize, after);
        self.next.set(b as usize, tmp);
        self.dsu.link(a, b);
        self.ring = Ghost(v.spliced(a, b).ring);
        proof {
            law_splice_keeps_partition(v, a, b);
            assert(self@ == v.spliced(a, b));
            let ra = v.ring[a as int];
            let rb = v.ring[b as int];
            assert(is_ring(next0, ra) && is_ring(next0, rb));
            lemma_rings_disjoint(v, a, b);
            assert forall|p: u32| self@.is_root(p) implies is_ring(
                self.next@,
                #[trigger] self@.ring[p as int],
            ) by {
                assert(v.is_root(p) && p != b);
                if p != a {
                    let r = v.ring[p as int];
                    assert(is_ring(next0, r));
                    lemma_rings_disjoint(v, p, a);
                    lemma_rings_disjoint(v, p, b);
                    assert forall|i: int| 0 <= i < r.len() implies self.next@[#[trigger] r[i] as int] == r[if i
                        + 1 < r.len() { i + 1 } else { 0 }] by {
                        assert(r[i] != ra[0] && r[i] != rb[0]);
                    }
                } else {
                    lemma_spliced_is_ring(next0, self.next@, ra, rb);
                }
            }
        }
    }

    /// The partition of `nf` faces into the given groups: the first face of
    /// each group owns the others, and the ring follows the group's order.
    pub fn from_groups(groups: &Vec<Vec<u32>>, nf: usize) -> (res: Self)
        requires
            nf <= u32::MAX,
            is_partition(lists(groups@), nf as nat),
        ensures
            res.wf(),
            res@.len() == nf,
            res@.is_grouping(lists(groups@)),
    {
        let ghost gs = lists(groups@);
        let mut res = FaceRings::new(nf);
        let mut g: usize = 0;
        proof {
            assert forall|h: int, j: int| 0 <= h < gs.len() && 0 <= j < gs[h].len() implies (#[trigger] gs[h][j])
                < nf && res.next@[gs[h][j] as int] == gs[h][j] by {
                let f = gs[h][j];
                assert(res@.ring[f as int] == seq![f]);
                assert(is_ring(res.next@, res@.ring[f as int]));
                assert(res@.ring[f as int][0] == f);
            }
        }
        while g < groups.len()
            invariant
                gs == lists(groups@),
                is_partition(gs, nf as nat),
                g <= groups@.len(),
                nf <= u32::MAX,
                res.grouped(gs, g as int, 0, nf as nat),
            decreases groups@.len() - g,
        {
            let faces: &Vec<u32> = &groups[g];
            assert(faces@ == gs[g as int]);
            if faces.len() > 0 {
                let root: u32 = faces[0];
                assert(gs[g as int][0] == root);
                let mut i: usize = 1;
                proof {
                    res.lemma_grouped_enter(gs, g as int, nf as nat);
                }
                while i < faces.len()
                    invariant
                        gs == lists(groups@),
                        is_partition(gs, nf as nat),
                        g < groups@.len(),
                        nf <= u32::MAX,
                        faces@ == gs[g as int],
                        root == faces@[0],
                        1 <= i <= faces@.len(),
                        res.grouped(gs, g as int, i as int, nf as nat),
                    decreases faces@.len() - i,
                {
                    let f: u32 = faces[i];
                    let ghost before = res;
                    assert(gs[g as int][i as int] == f);
                    assert(gs[g as int][0] == root);
                    res.dsu.link(root, f);
                    res.next.set(faces[i - 1] as usize, f);
                    res.next.set(f as usize, root);
                    proof {
                        res.lemma_grouped_step(before, gs, g as int, i as int, nf as nat);
                    }
                    i += 1;
                }
                proof {
                    res.lemma_grouped_leave(gs, g as int, nf as nat);
                }
            } else {
                proof {
                    res.lemma_grouped_leave(gs, g as int, nf as nat);
                }
            }
            g += 1;
        }
        let ghost ring = Seq::new(
            nf as nat,
            |p: int| if res.dsu@.rep[p] == p { gs[group_of(gs, p as u32)] } else { Seq::empty() },
        );
        res.ring = Ghost(ring);
        proof {
            res.lemma_grouped_done(gs, nf as nat);
        }
        res
    }

    /// The first `g` groups, and the first `i` faces of group `g`, are in
    /// place; every other face is on its own.
    spec fn grouped(&self, gs: Seq<Seq<u32>>, g: int, i: int, nf: nat) -> bool {
        &&& self.dsu.wf()
        &&& self.dsu@.len() == nf
        &&& self.next@.len() == nf
        &&& forall|h: int, j: int|
            0 <= h < gs.len() && 0 <= j < gs[h].len() ==> self.dsu@.rep[#[trigger] gs[h][j] as int] == (
            if placed(g, i, h, j) {
                gs[h][0]
            } else {
                gs[h][j]
            })
        &&& forall|h: int, j: int|
            0 <= h < gs.len() && 0 <= j < gs[h].len() ==> self.next@[#[trigger] gs[h][j] as int] == (if !placed(
                g,
                i,
                h,
                j,
            ) {
                gs[h][j]
            } else if j + 1 < gs[h].len() && placed(g, i, h, j + 1) {
                gs[h][j + 1]
            } else {
                gs[h][0]
            })
    }

    proof fn lemma_grouped_enter(&self, gs: Seq<Seq<u32>>, g: int, nf: nat)
        requires
            self.grouped(gs, g, 0, nf),
            0 <= g < gs.len(),
            gs[g].len() > 0,
        ensures
            self.grouped(gs, g, 1, nf),
    {
        assert forall|h: int, j: int| 0 <= h < gs.len() && 0 <= j < gs[h].len() implies self.next@[#[trigger] gs[h][j] as int] == (
        if !placed(g, 1, h, j) {
            gs[h][j]
        } else if j + 1 < gs[h].len() && placed(g, 1, h, j + 1) {
            gs[h][j + 1]
        } else {
            gs[h][0]
        }) by {
            assert(placed(g, 1, h, j) <==> placed(g, 0, h, j) || (h == g && j == 0));
        }
    }

    proof fn lemma_grouped_leave(&self, gs: Seq<Seq<u32>>, g: int, nf: nat)
        requires
            0 <= g < gs.len(),
            self.grouped(gs, g, gs[g].len() as int, nf),
        ensures
            self.grouped(gs, g + 1, 0, nf),
    {
        let i = gs[g].len() as int;
        assert forall|h: int, j: int| 0 <= h < gs.len() && 0 <= j < gs[h].len() implies placed(g, i, h, j)
            == #[trigger] placed(g + 1, 0, h, j) by {}
        assert forall|h: int, j: int| 0 <= h < gs.len() && 0 <= j < gs[h].len() implies self.next@[#[trigger] gs[h][j] as int] == (
        if !placed(g + 1, 0, h, j) {
            gs[h][j]
        } else if j + 1 < gs[h].len() && placed(g + 1, 0, h, j + 1) {
            gs[h][j + 1]
        } else {
            gs[h][0]
        }) by {
            assert(placed(g, i, h, j) == placed(g + 1, 0, h, j));
            if j + 1 < gs[h].len() {
                assert(placed(g, i, h, j + 1) == placed(g + 1, 0, h, j + 1));
            }
        }
    }

    proof fn lemma_grouped_step(&self, before: Self, gs: Seq<Seq<u32>>, g: int, i: int, nf: nat)
        requires
            is_partition(gs, nf),
            0 <= g < gs.len(),
            1 <= i < gs[g].len(),
            before.grouped(gs, g, i, nf),
            self.dsu.wf(),
            self.dsu@ == before.dsu@.linked(gs[g][0], gs[g][i]),
            self.next@ == before.next@.update(gs[g][i - 1] as int, gs[g][i]).update(gs[g][i] as int, gs[g][0]),
        ensures
            self.grouped(gs, g, i + 1, nf),
    {
        let root = gs[g][0];
        let f = gs[g][i];
        assert(root != f);
        assert(gs[g][i - 1] != f);
        assert(before.dsu@.rep[f as int] == f);
        assert(before.dsu@.rep[root as int] == root);
        assert forall|h: int, j: int| 0 <= h < gs.len() && 0 <= j < gs[h].len() implies self.dsu@.rep[#[trigger] gs[h][j] as int] == (
        if placed(g, i + 1, h, j) {
            gs[h][0]
        } else {
            gs[h][j]
        }) by {
            let x = gs[h][j];
            assert(x < nf);
            assert(gs[h][0] < nf);
            assert(gs[h][0] == f ==> h == g && 0 == i);
            assert(x == f ==> h == g && j == i);
        }
        assert forall|h: int, j: int| 0 <= h < gs.len() && 0 <= j < gs[h].len() implies self.next@[#[trigger] gs[h][j] as int] == (
        if !placed(g, i + 1, h, j) {
            gs[h][j]
        } else if j + 1 < gs[h].len() && placed(g, i + 1, h, j + 1) {
            gs[h][j + 1]
        } else {
            gs[h][0]
        }) by {
            let x = gs[h][j];
            assert(x < nf);
            assert(x == f ==> h == g && j == i);
            assert(x == gs[g][i - 1] ==> h == g && j == i - 1);
        }
    }

    proof fn lemma_grouped_done(&self, gs: Seq<Seq<u32>>, nf: nat)
        requires
            nf <= u32::MAX,
            is_partition(gs, nf),
            self.grouped(gs, gs.len() as int, 0, nf),
            self.ring@ == Seq::new(
                nf,
                |p: int|
                    if self.dsu@.rep[p] == p {
                        gs[group_of(gs, p as u32)]
                    } else {
                        Seq::empty()
                    },
            ),
        ensures
            self.wf(),
            self@.len() == nf,
            self@.is_grouping(gs),
    {
        let v = self@;
        let done = gs.len() as int;
        assert forall|h: int, j: int| 0 <= h < gs.len() && 0 <= j < gs[h].len() implies v.owner[#[trigger] gs[h][j] as int]
            == gs[h][0] by {
            assert(placed(done, 0, h, j));
        }
        lemma_groups_consistent(v, gs);
        assert forall|p: u32| v.is_root(p) implies is_ring(self.next@, #[trigger] v.ring[p as int]) by {
            let h = group_of(gs, p);
            let r = gs[h];
            assert(v.ring[p as int] == r);
            lemma_group_of(gs, p, v.len());
            assert forall|i: int| 0 <= i < r.len() implies (#[trigger] r[i]) < self.next@.len()
                && self.next@[r[i] as int] == r[if i + 1 < r.len() { i + 1 } else { 0 }] by {
                assert(placed(done, 0, h, i));
                assert(gs[h][i] < nf);
                assert(self.next@[gs[h][i] as int] == r[if i + 1 < r.len() { i + 1 } else { 0 }]);
            }
        }
    }
}

proof fn lemma_group_of(gs: Seq<Seq<u32>>, f: u32, nf: nat)
    requires
        is_partition(gs, nf),
        f < nf,
    ensures
        0 <= group_of(gs, f) < gs.len(),
        gs[group_of(gs, f)].contains(f),
{
    assert(in_some_group(gs, f));
    let (g, i) = choose|g: int, i: int|
        0 <= g < gs.len() && 0 <= i < gs[g].len() && #[trigger] gs[g][i] == f;
    assert(gs[g].contains(f));
}

/// Owners that are the first faces of their groups make a consistent
/// partition, with the groups as rings.
proof fn lemma_groups_consistent(v: RingsView, gs: Seq<Seq<u32>>)
    requires
        v.len() <= u32::MAX,
        is_partition(gs, v.len()),
        forall|h: int, j: int|
            0 <= h < gs.len() && 0 <= j < gs[h].len() ==> v.owner[#[trigger] gs[h][j] as int] == gs[h][0],
        v.ring == Seq::new(
            v.len(),
            |p: int| if v.owner[p] == p { gs[group_of(gs, p as u32)] } else { Seq::empty() },
        ),
    ensures
        v.is_grouping(gs),
{
    let nf = v.len();
    assert forall|f: u32| f < nf implies ({
        let h = group_of(gs, f);
        &&& 0 <= h < gs.len()
        &&& gs[h].len() > 0
        &&& gs[h].contains(f)
        &&& #[trigger] v.owner[f as int] == gs[h][0]
        &&& gs[h][0] < nf
        &&& v.owner[gs[h][0] as int] == gs[h][0]
    }) by {
        lemma_group_of(gs, f, nf);
        let h = group_of(gs, f);
        let j = choose|j: int| 0 <= j < gs[h].len() && gs[h][j] == f;
        assert(v.owner[gs[h][j] as int] == gs[h][0]);
        assert(v.owner[gs[h][0] as int] == gs[h][0]);
    }
    assert forall|p: u32| v.is_root(p) implies ({
        let h = group_of(gs, p);
        &&& 0 <= h < gs.len()
        &&& gs[h].len() > 0
        &&& gs[h][0] == p
        &&& #[trigger] v.ring[p as int] == gs[h]
    }) by {
        assert(v.owner[p as int] == gs[group_of(gs, p)][0]);
    }
    assert forall|p: u32| v.is_root(p) implies {
        &&& (#[trigger] v.ring[p as int]).len() > 0
        &&& v.ring[p as int][0] == p
        &&& v.ring[p as int].no_duplicates()
    } by {
        let h = group_of(gs, p);
        let r = gs[h];
        assert forall|i: int, j: int| 0 <= i < r.len() && 0 <= j < r.len() && i != j implies r[i] != r[j] by {
            assert(gs[h][i] != gs[h][j]);
        }
    }
    assert forall|p: u32, i: int| v.is_root(p) && 0 <= i < v.ring[p as int].len() implies {
        &&& (#[trigger] v.ring[p as int][i]) < v.len()
        &&& v.owner[v.ring[p as int][i] as int] == p
    } by {
        let h = group_of(gs, p);
        assert(v.ring[p as int] == gs[h]);
        assert(gs[h][i] < nf);
    }
    assert forall|f: int| 0 <= f < v.len() implies v.is_root(#[trigger] v.owner[f]) by {
        assert(v.owner[f as u32 as int] == gs[group_of(gs, f as u32)][0]);
    }
    assert forall|f: u32| f < v.len() implies v.ring[v.owner[f as int] as int].contains(f) by {
        let h = group_of(gs, f);
        let p = v.owner[f as int];
        assert(v.is_root(p));
        let h2 = group_of(gs, p);
        assert(gs[h][0] == gs[h2][0]);
        assert(h == h2);
    }
    assert forall|g: int| 0 <= g < gs.len() && gs[g].len() > 0 implies v.ring[(#[trigger] gs[g])[0] as int]
        == gs[g] by {
        let p = gs[g][0];
        assert(p < nf);
        assert(v.owner[p as int] == p);
        assert(v.is_root(p));
        let h = group_of(gs, p);
        assert(gs[h][0] == gs[g][0]);
    }
}

/// Face `j` of group `h` comes before face `i` of group `g`.
spec fn placed(g: int, i: int, h: int, j: int) -> bool {
    h < g || (h == g && j < i)
}

/// The group that holds face `f`.
spec fn group_of(groups: Seq<Seq<u32>>, f: u32) -> int {
    choose|g: int| 0 <= g < groups.len() && #[trigger] groups[g].contains(f)
}

/// Where rings were made of groups, the first face of a group owns all of it,
/// and the faces of a group come round in their order.
pub proof fn law_first_face_owns_its_group(v: RingsView, groups: Seq<Seq<u32>>, g: int, i: int)
    requires
        v.is_grouping(groups),
        0 <= g < groups.len(),
        0 <= i < groups[g].len(),
    ensures
        v.owner[groups[g][i] as int] == groups[g][0],
        v.ring[groups[g][0] as int] == groups[g],
{
    assert(groups[g].len() > 0);
    assert(v.owner[groups[g][i] as int] == groups[g][0]);
}

/// Groups that part the faces have each face once.
pub proof fn law_parts_have_each_face_once(groups: Seq<Seq<u32>>, nf: nat, f: u32, g: int, h: int)
    requires
        is_partition(groups, nf),
        0 <= g < groups.len(),
        0 <= h < groups.len(),
    ensures
        f < nf ==> exists|k: int| 0 <= k < groups.len() && #[trigger] groups[k].contains(f),
        groups[g].contains(f) && groups[h].contains(f) ==> g == h,
        groups[g].contains(f) ==> f < nf,
        groups[g].no_duplicates(),
{
    if f < nf {
        assert(in_some_group(groups, f));
        let (k, i) = choose|k: int, i: int| 0 <= k < groups.len() && 0 <= i < groups[k].len() && #[trigger] groups[k][i] == f;
        assert(groups[k].contains(f));
    }
    if groups[g].contains(f) {
        let i = choose|i: int| 0 <= i < groups[g].len() && groups[g][i] == f;
        assert(groups[g][i] < nf);
        if groups[h].contains(f) {
            let j = choose|j: int| 0 <= j < groups[h].len() && groups[h][j] == f;
            assert(groups[g][i] == groups[h][j]);
        }
    }
    assert forall|i: int, j: int| 0 <= i < groups[g].len() && 0 <= j < groups[g].len() && i != j implies groups[g][i]
        != groups[g][j] by {
        assert(groups[g][i] != groups[g][j] || i == j);
    }
}

/// At first every face owns itself and nothing else.
pub proof fn law_faces_start_alone(n: nat, f: u32, p: u32)
    requires
        n <= u32::MAX,
        f < n,
        p < n,
    ensures
        RingsView::singletons(n).owner[f as int] == f,
        RingsView::singletons(n).ring[p as int].contains(f) <==> p == f,
        RingsView::singletons(n).is_root(f),
{
    let r = RingsView::singletons(n).ring[p as int];
    assert(r[0] == p);
    if r.contains(f) {
        let i = choose|i: int| 0 <= i < r.len() && r[i] == f;
        assert(i == 0);
    }
}

} // verus!
