//! The final compression: merging down to a budget of primitives.

use crate::faces::{FaceRings, RingsView, lemma_distinct_bounded};
use crate::merge::{Offer, cheapest, is_stale};
use crate::primitive::{
    Fit, PrimView, Primitive, absorb, absorbed, all_wf, law_absorb_takes_one, live_count, live_indices, views,
};
use crate::queue::{MergeQueue, PqEntry};
use crate::scalar::Scalar;
use crate::sets::{is_set, set_remove};
use vstd::multiset::Multiset;
use vstd::prelude::*;

verus! {

/// What the compression asks for next.
#[derive(Clone, Copy, Debug)]
pub enum BudgetStep {
    /// The budget is met, or no pair is left.
    Done,
    /// A queued pair was out of date and has been dropped.
    Stale(PqEntry),
    /// This pair is to be measured.
    Candidate(PqEntry),
}

/// The state of the compression.
pub struct BudgetView {
    pub prims: Seq<PrimView>,
    /// The faces of each primitive.
    pub faces: Seq<Seq<u32>>,
    pub queue: Multiset<PqEntry>,
    pub target: int,
    /// The farthest that the mesh may be from a merged primitive.
    pub threshold: Scalar,
    pub accepted: int,
    /// The primitives before the first merge.
    pub before: Seq<PrimView>,
    /// What was measured of the last merge into each primitive: its error
    /// score, and how far the mesh is from it.
    pub measured: Seq<Option<(Scalar, Scalar)>>,
}

impl BudgetView {
    /// The face lists of live primitives are as long as their counts say, and
    /// no face of the mesh is in two of them. Every live primitive is as it was
    /// or was merged within the limits, and there are never fewer than asked for.
    pub open spec fn inv(self, nf: nat) -> bool {
        &&& self.prims.len() <= u32::MAX
        &&& nf <= u32::MAX
        &&& self.faces.len() == self.prims.len()
        &&& forall|e: PqEntry| #[trigger]
            self.queue.contains(e) ==> e.a != e.b && e.a < self.prims.len() && e.b < self.prims.len()
        &&& forall|i: int|
            0 <= i < self.prims.len() && (#[trigger] self.prims[i]).alive ==> {
                &&& self.prims[i].face_count == self.faces[i].len()
                &&& self.faces[i].no_duplicates()
                &&& self.prims[i].version + live_count(self.prims) <= u64::MAX
            }
        &&& forall|i: int, k: int|
            0 <= i < self.prims.len() && 0 <= k < self.faces[i].len() ==> (#[trigger] self.faces[i][k]) < nf
        &&& forall|i: int, j: int, f: u32|
            0 <= i < self.prims.len() && 0 <= j < self.prims.len() && i != j && self.prims[i].alive
                && self.prims[j].alive ==> !(#[trigger] self.faces[i].contains(f) && #[trigger] self.faces[j].contains(
                f,
            ))
        &&& 0 <= self.accepted
        &&& self.accepted + live_count(self.prims) <= self.prims.len()
        &&& self.accepted + live_count(self.prims) == live_count(self.before)
        &&& self.target <= live_count(self.prims)
        &&& self.before.len() == self.prims.len()
        &&& self.measured.len() == self.prims.len()
        &&& forall|i: int|
            0 <= i < self.prims.len() && (#[trigger] self.prims[i]).alive ==> match self.measured[i] {
                Some(m) => fits_budget(m.0, m.1, self.threshold),
                None => self.prims[i] == self.before[i],
            }
    }

    pub open spec fn is_live_pair(self, a: u32, b: u32) -> bool {
        &&& a != b
        &&& a < self.prims.len()
        &&& b < self.prims.len()
        &&& self.prims[a as int].alive
        &&& self.prims[b as int].alive
    }

    /// Primitive `b` is merged into `a`, of which this was measured.
    pub open spec fn committed(self, a: u32, b: u32, fit: Fit, score: Scalar, reverse: Scalar) -> BudgetView {
        BudgetView {
            prims: absorbed(self.prims, a, b, fit, false),
            faces: self.faces.update(a as int, self.faces[a as int] + self.faces[b as int]).update(
                b as int,
                Seq::empty(),
            ),
            accepted: self.accepted + 1,
            measured: self.measured.update(a as int, Some((score, reverse))),
            ..self
        }
    }
}

proof fn lemma_disjoint_concat(s: Seq<u32>, t: Seq<u32>)
    requires
        s.no_duplicates(),
        t.no_duplicates(),
        forall|f: u32| !(#[trigger] s.contains(f) && #[trigger] t.contains(f)),
    ensures
        (s + t).no_duplicates(),
        forall|f: u32| #[trigger] (s + t).contains(f) <==> s.contains(f) || t.contains(f),
{
    let u = s + t;
    assert forall|f: u32| #[trigger] u.contains(f) <==> s.contains(f) || t.contains(f) by {
        if s.contains(f) {
            let i = choose|i: int| 0 <= i < s.len() && s[i] == f;
            assert(u[i] == f);
        }
        if t.contains(f) {
            let i = choose|i: int| 0 <= i < t.len() && t[i] == f;
            assert(u[s.len() + i] == f);
        }
        if u.contains(f) {
            let i = choose|i: int| 0 <= i < u.len() && u[i] == f;
            if i < s.len() {
                assert(s[i] == f);
            } else {
                assert(t[i - s.len()] == f);
            }
        }
    }
    assert forall|i: int, j: int| 0 <= i < u.len() && 0 <= j < u.len() && i != j implies u[i] != u[j] by {
        if i < s.len() && j >= s.len() {
            assert(s.contains(u[i]));
            assert(t.contains(t[j - s.len()]));
        } else if i >= s.len() && j < s.len() {
            assert(s.contains(u[j]));
            assert(t.contains(t[i - s.len()]));
        }
    }
}

/// A merge within the limits keeps the face lists apart and takes one
/// primitive.
pub proof fn law_budget_merge_keeps_invariant(
    v: BudgetView,
    nf: nat,
    a: u32,
    b: u32,
    fit: Fit,
    score: Scalar,
    reverse: Scalar,
)
    requires
        v.inv(nf),
        v.is_live_pair(a, b),
        v.target < live_count(v.prims),
        fits_budget(score, reverse, v.threshold),
    ensures
        v.committed(a, b, fit, score, reverse).inv(nf),
        live_count(v.committed(a, b, fit, score, reverse).prims) + 1 == live_count(v.prims),
        v.faces[a as int].len() + v.faces[b as int].len() <= nf,
{
    let w = v.committed(a, b, fit, score, reverse);
    law_absorb_takes_one(v.prims, a, b, fit, false);
    let (fa, fb) = (v.faces[a as int], v.faces[b as int]);
    assert(v.prims[a as int].alive && v.prims[b as int].alive);
    lemma_disjoint_concat(fa, fb);
    assert forall|k: int| 0 <= k < (fa + fb).len() implies (#[trigger] (fa + fb)[k]) < nf by {
        if k < fa.len() {
            assert(v.faces[a as int][k] < nf);
        } else {
            assert(v.faces[b as int][k - fa.len()] < nf);
        }
    }
    lemma_distinct_bounded(fa + fb, nf);
    assert forall|i: int, k: int| 0 <= i < w.prims.len() && 0 <= k < w.faces[i].len() implies (
    #[trigger] w.faces[i][k]) < nf by {
        if i == a {
            assert((fa + fb)[k] < nf);
        } else if i != b {
            assert(v.faces[i][k] < nf);
        }
    }
    assert forall|i: int| 0 <= i < w.prims.len() && (#[trigger] w.prims[i]).alive implies {
        &&& w.prims[i].face_count == w.faces[i].len()
        &&& w.faces[i].no_duplicates()
        &&& w.prims[i].version + live_count(w.prims) <= u64::MAX
    } by {
        assert(v.prims[i].alive);
    }
    assert forall|i: int, j: int, f: u32|
        0 <= i < w.prims.len() && 0 <= j < w.prims.len() && i != j && w.prims[i].alive && w.prims[j].alive implies !(
    #[trigger] w.faces[i].contains(f) && #[trigger] w.faces[j].contains(f)) by {
        assert(v.prims[i].alive && v.prims[j].alive);
        assert((fa + fb).contains(f) <==> fa.contains(f) || fb.contains(f));
        assert(!(v.faces[i].contains(f) && v.faces[j].contains(f)));
        if i == a {
            assert(!(v.faces[b as int].contains(f) && v.faces[j].contains(f)));
        }
        if j == a {
            assert(!(v.faces[i].contains(f) && v.faces[b as int].contains(f)));
        }
    }
}

/// Nothing is compressed beyond the limits: a live primitive is as it was, or
/// the merge that made it was measured and stayed within them; every merge
/// takes one primitive, and the target is never undercut.
pub proof fn law_compressed_keep_limits(v: BudgetView, nf: nat, i: int)
    requires
        v.inv(nf),
        0 <= i < v.prims.len(),
        v.prims[i].alive,
    ensures
        v.prims[i] == v.before[i] || (v.measured[i] matches Some(m) && fits_budget(m.0, m.1, v.threshold)),
        live_count(v.prims) == live_count(v.before) - v.accepted,
        live_count(v.prims) >= v.target,
{
}

/// A compression in progress.
pub struct Budget {
    prims: Vec<Primitive>,
    faces: Vec<Vec<u32>>,
    queue: MergeQueue,
    live: usize,
    target: usize,
    threshold: Scalar,
    accepted: usize,
    nf: Ghost<nat>,
    before: Ghost<Seq<PrimView>>,
    measured: Ghost<Seq<Option<(Scalar, Scalar)>>>,
}

impl View for Budget {
    type V = BudgetView;

    closed spec fn view(&self) -> BudgetView {
        BudgetView {
            prims: views(self.prims@),
            faces: crate::faces::lists(self.faces@),
            queue: self.queue@,
            target: self.target as int,
            threshold: self.threshold,
            accepted: self.accepted as int,
            before: self.before@,
            measured: self.measured@,
        }
    }
}

/// Live primitives that have faces are primitives of the partition, and their
/// counts are those of the partition.
pub open spec fn counts_match(ps: Seq<PrimView>, rv: RingsView) -> bool {
    forall|i: int|
        0 <= i < ps.len() && (#[trigger] ps[i]).alive && ps[i].face_count > 0 ==> i < rv.len() && rv.is_root(i as u32)
            && ps[i].face_count == rv.ring[i].len()
}

impl Budget {
    pub closed spec fn mesh_faces(&self) -> nat {
        self.nf@
    }

    pub closed spec fn wf(&self) -> bool {
        &&& self@.inv(self.nf@)
        &&& all_wf(self.prims@)
        &&& self.queue.wf()
        &&& self.live == live_count(self@.prims)
    }

    /// The invariant of the compression holds of every well-formed state.
    pub proof fn lemma_inv(&self)
        requires
            self.wf(),
        ensures
            self@.inv(self.mesh_faces()),
    {
    }

    /// Starts a compression down to `target` primitives, none of which the mesh
    /// may be farther from than the threshold. Where there is nothing to do, the
    /// primitives are handed back.
    pub fn new(prims: Vec<Primitive>, rings: &FaceRings, target: usize, threshold: Scalar) -> (res: Result<
        Self,
        Vec<Primitive>,
    >)
        requires
            all_wf(prims@),
            prims@.len() <= u32::MAX,
            rings.wf(),
            counts_match(views(prims@), rings@),
            forall|i: int| 0 <= i < prims@.len() ==> (#[trigger] prims@[i]).version + prims@.len() <= u64::MAX,
        ensures
            match res {
                Err(same) => same == prims && (target == 0 || live_count(views(prims@)) <= target),
                Ok(b) => {
                    &&& target > 0 && live_count(views(prims@)) > target
                    &&& b.wf()
                    &&& b@.prims == views(prims@)
                    &&& b@.target == target
                    &&& b@.threshold == threshold
                    &&& b@.accepted == 0
                    &&& b@.before == b@.prims
                    &&& b@.measured == Seq::new(prims@.len(), |i: int| None::<(Scalar, Scalar)>)
                    &&& b@.queue == Multiset::<PqEntry>::empty()
                    &&& forall|i: int|
                        0 <= i < prims@.len() ==> #[trigger] b@.faces[i] == (if prims@[i].alive
                            && prims@[i].face_count > 0 {
                            rings@.ring[i]
                        } else {
                            Seq::empty()
                        })
                },
            },
    {
        let live: usize = live_indices(&prims).len();
        if target == 0 || live <= target {
            return Err(prims);
        }
        let ghost rv = rings@;
        let ghost ps = views(prims@);
        proof {
            rings.lemma_view();
        }
        let mut faces: Vec<Vec<u32>> = Vec::new();
        let mut i: usize = 0;
        while i < prims.len()
            invariant
                rings.wf(),
                rv == rings@,
                ps == views(prims@),
                prims@.len() <= u32::MAX,
                counts_match(ps, rv),
                i <= prims@.len(),
                faces@.len() == i,
                forall|k: int|
                    0 <= k < i ==> (#[trigger] faces@[k])@ == (if prims@[k].alive && prims@[k].face_count > 0 {
                        rv.ring[k]
                    } else {
                        Seq::empty()
                    }),
            decreases prims@.len() - i,
        {
            assert(ps[i as int] == prims@[i as int]@);
            let list: Vec<u32> = if prims[i].alive && prims[i].face_count > 0 {
                rings.faces(i as u32, prims[i].face_count)
            } else {
                Vec::new()
            };
            faces.push(list);
            i += 1;
        }
        let b = Budget {
            prims,
            faces,
            queue: MergeQueue::new(),
            live,
            target,
            threshold,
            accepted: 0,
            nf: Ghost(rv.len()),
            before: Ghost(ps),
            measured: Ghost(Seq::new(ps.len(), |i: int| None::<(Scalar, Scalar)>)),
        };
        proof {
            let v = b@;
            lemma_live_count_bound(ps);
            assert forall|i: int| 0 <= i < v.prims.len() && (#[trigger] v.prims[i]).alive implies {
                &&& v.prims[i].face_count == v.faces[i].len()
                &&& v.faces[i].no_duplicates()
                &&& v.prims[i].version + live_count(v.prims) <= u64::MAX
            } by {
                assert(prims@[i].version + prims@.len() <= u64::MAX);
                assert(ps[i] == prims@[i]@);
                assert(faces@[i]@ == v.faces[i]);
                if prims@[i].face_count > 0 {
                    assert(rv.is_root(i as u32));
                    assert(rv.ring[(i as u32) as int].no_duplicates());
                }
            }
            assert forall|i: int, k: int| 0 <= i < v.prims.len() && 0 <= k < v.faces[i].len() implies (
            #[trigger] v.faces[i][k]) < rv.len() by {
                assert(faces@[i]@ == v.faces[i]);
                assert(ps[i] == prims@[i]@);
                assert(rv.ring[(i as u32) as int][k] < rv.len());
            }
            assert forall|i: int, j: int, f: u32|
                0 <= i < v.prims.len() && 0 <= j < v.prims.len() && i != j && v.prims[i].alive
                    && v.prims[j].alive implies !(#[trigger] v.faces[i].contains(f) && #[trigger] v.faces[j].contains(f)) by {
                assert(faces@[i]@ == v.faces[i] && faces@[j]@ == v.faces[j]);
                assert(ps[i] == prims@[i]@ && ps[j] == prims@[j]@);
                if v.faces[i].contains(f) && v.faces[j].contains(f) {
                    let k = choose|k: int| 0 <= k < v.faces[i].len() && v.faces[i][k] == f;
                    let l = choose|l: int| 0 <= l < v.faces[j].len() && v.faces[j][l] == f;
                    assert(rv.owner[rv.ring[(i as u32) as int][k] as int] == i as u32);
                    assert(rv.owner[rv.ring[(j as u32) as int][l] as int] == j as u32);
                }
            }
        }
        Ok(b)
    }

    /// The next thing to do: one turn of the loop, up to the point where
    /// geometry is needed.
    pub fn next(&mut self) -> (step: BudgetStep)
        requires
            old(self).wf(),
        ensures
            final(self).wf(),
            final(self).mesh_faces() == old(self).mesh_faces(),
            ({
                let (v, w) = (old(self)@, final(self)@);
                let met = live_count(v.prims) <= v.target;
                match step {
                    BudgetStep::Done => w == v && (met || v.queue.len() == 0),
                    BudgetStep::Stale(e) => !met && cheapest(v.queue, e) && is_stale(v.prims, e) && w == (BudgetView {
                        queue: v.queue.remove(e),
                        ..v
                    }),
                    BudgetStep::Candidate(e) => !met && cheapest(v.queue, e) && !is_stale(v.prims, e) && w == (
                    BudgetView { queue: v.queue.remove(e), ..v }),
                }
            }),
    {
        if self.live <= self.target {
            return BudgetStep::Done;
        }
        let ghost v = self@;
        let e: PqEntry = match self.queue.pop() {
            Some(e) => e,
            None => {
                return BudgetStep::Done;
            },
        };
        proof {
            let w = self@;
            assert forall|o: PqEntry| #[trigger] w.queue.contains(o) implies o.a != o.b && o.a < w.prims.len() && o.b
                < w.prims.len() by {
                assert(v.queue.contains(o));
            }
        }
        assert(v.queue.contains(e));
        let (a, b): (usize, usize) = (e.a as usize, e.b as usize);
        if !self.prims[a].alive || !self.prims[b].alive || self.prims[a].version != e.va || self.prims[b].version
            != e.vb {
            return BudgetStep::Stale(e);
        }
        BudgetStep::Candidate(e)
    }

    /// Queues a priced pair with the present versions of its primitives.
    pub fn offer(&mut self, o: &Offer)
        requires
            old(self).wf(),
            old(self)@.is_live_pair(o.a, o.b),
        ensures
            final(self).wf(),
            final(self).mesh_faces() == old(self).mesh_faces(),
            final(self)@ == (BudgetView {
                queue: old(self)@.queue.insert(
                    (PqEntry {
                        cost: o.cost,
                        a: o.a,
                        b: o.b,
                        va: old(self)@.prims[o.a as int].version as u64,
                        vb: old(self)@.prims[o.b as int].version as u64,
                        prim: o.prim,
                        volume: o.volume,
                        weighted_volume: o.weighted_volume,
                    }),
                ),
                ..old(self)@
            }),
    {
        let ghost v = self@;
        let e = PqEntry {
            cost: o.cost,
            a: o.a,
            b: o.b,
            va: self.prims[o.a as usize].version,
            vb: self.prims[o.b as usize].version,
            prim: o.prim,
            volume: o.volume,
            weighted_volume: o.weighted_volume,
        };
        self.queue.push(e);
        proof {
            let w = self@;
            assert forall|x: PqEntry| #[trigger] w.queue.contains(x) implies x.a != x.b && x.a < w.prims.len() && x.b
                < w.prims.len() by {
                if x != e {
                    assert(v.queue.contains(x));
                }
            }
        }
    }

    /// Whether a measured merge stays within the limits.
    pub fn allows(&self, score: Scalar, reverse: Scalar) -> (ok: bool)
        ensures
            ok == fits_budget(score, reverse, self@.threshold),
    {
        !score.gt(Scalar::one()) && !reverse.gt(self.threshold)
    }

    /// Merges primitive `b` into `a` under the given shape, of which this was
    /// measured.
    pub fn commit(&mut self, a: u32, b: u32, fit: Fit, score: Scalar, reverse: Scalar)
        requires
            old(self).wf(),
            old(self)@.is_live_pair(a, b),
            old(self)@.target < live_count(old(self)@.prims),
            fits_budget(score, reverse, old(self)@.threshold),
        ensures
            final(self).wf(),
            final(self).mesh_faces() == old(self).mesh_faces(),
            final(self)@ == old(self)@.committed(a, b, fit, score, reverse),
            final(self)@.prims[a as int].q == fit.q,
            final(self)@.prims[a as int].prim == fit.prim,
            final(self)@.prims[a as int].volume == fit.volume,
            final(self)@.prims[a as int].weighted_volume == fit.weighted_volume,
            final(self)@.prims[a as int].alive,
            final(self)@.prims[a as int].face_count == old(self)@.prims[a as int].face_count + old(
                self,
            )@.prims[b as int].face_count,
            !final(self)@.prims[b as int].alive,
            final(self)@.faces[a as int] == old(self)@.faces[a as int] + old(self)@.faces[b as int],
            live_count(final(self)@.prims) + 1 == live_count(old(self)@.prims),
    {
        let ghost v = self@;
        proof {
            law_budget_merge_keeps_invariant(v, self.nf@, a, b, fit, score, reverse);
            assert(v.prims[a as int].alive && v.prims[b as int].alive);
        }
        absorb(&mut self.prims, a, b, fit, false);
        let mut taken: Vec<u32> = Vec::new();
        let ghost f0 = self.faces@;
        let mut i: usize = 0;
        while i < self.faces[b as usize].len()
            invariant
                b < self.faces@.len(),
                self.faces@ == f0,
                i <= f0[b as int]@.len(),
                taken@ == f0[b as int]@.subrange(0, i as int),
            decreases f0[b as int]@.len() - i,
        {
            taken.push(self.faces[b as usize][i]);
            assert(f0[b as int]@.subrange(0, i + 1) =~= f0[b as int]@.subrange(0, i as int).push(f0[b as int]@[i as int]));
            i += 1;
        }
        assert(f0[b as int]@.subrange(0, i as int) =~= f0[b as int]@);
        self.faces[a as usize].append(&mut taken);
        self.faces.set(b as usize, Vec::new());
        self.live = self.live - 1;
        self.accepted = self.accepted + 1;
        self.measured = Ghost(self.measured@.update(a as int, Some((score, reverse))));
        assert(self@.faces =~= v.committed(a, b, fit, score, reverse).faces);
        assert(self@ == v.committed(a, b, fit, score, reverse));
    }

    /// The primitives to price against `a`: every other live one.
    pub fn partners(&self, a: u32) -> (list: Vec<u32>)
        requires
            self.wf(),
            a < self@.prims.len(),
        ensures
            is_set(list@),
            forall|n: u32| #[trigger]
                list@.contains(n) <==> n < self@.prims.len() && n != a && self@.prims[n as int].alive,
    {
        let mut l = live_indices(&self.prims);
        set_remove(&mut l, a);
        l
    }

    /// The live primitives, in order. Every two of them are priced at first.
    pub fn live(&self) -> (list: Vec<u32>)
        requires
            self.wf(),
        ensures
            is_set(list@),
            forall|n: u32| #[trigger] list@.contains(n) <==> n < self@.prims.len() && self@.prims[n as int].alive,
    {
        live_indices(&self.prims)
    }

    /// The primitives.
    pub fn primitives(&self) -> (prims: &Vec<Primitive>)
        requires
            self.wf(),
        ensures
            views(prims@) == self@.prims,
            all_wf(prims@),
    {
        &self.prims
    }

    /// The faces of primitive `p`.
    pub fn faces(&self, p: u32) -> (faces: &Vec<u32>)
        requires
            self.wf(),
            p < self@.prims.len(),
        ensures
            faces@ == self@.faces[p as int],
    {
        &self.faces[p as usize]
    }

    /// The end of the compression: the primitives, and how many merges were
    /// made.
    pub fn finish(self) -> (res: (Vec<Primitive>, usize))
        requires
            self.wf(),
        ensures
            views(res.0@) == self@.prims,
            all_wf(res.0@),
            res.1 == self@.accepted,
    {
        (self.prims, self.accepted)
    }
}

proof fn lemma_live_count_bound(ps: Seq<PrimView>)
    ensures
        live_count(ps) <= ps.len(),
    decreases ps.len(),
{
    if ps.len() > 0 {
        lemma_live_count_bound(ps.drop_last());
    }
}

/// A measured merge stays within the limits: its error score is at most one,
/// and the mesh is nowhere farther from it than the threshold.
pub open spec fn fits_budget(score: Scalar, reverse: Scalar, threshold: Scalar) -> bool {
    !(Scalar { bits: 0x3f80_0000 }).spec_lt(score) && !threshold.spec_lt(reverse)
}

} // verus!
