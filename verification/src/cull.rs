//! Dropping primitives that others make superfluous.
//!
//! A primitive may be dropped because another one covers it. The candidates
//! are gone through in order; for each, the others are asked in turn whether
//! they cover it. What has been dropped covers nothing any more.

use crate::order::{ascending, is_ranking, rank_ascending};
use crate::prim::Prim;
use crate::primitive::{PrimView, Primitive, all_wf, clear_slot, emptied, live_indices, views};
use crate::scalar::Scalar;
use crate::sets::{is_set, lemma_push_contains, shares_member};
use vstd::prelude::*;

verus! {

/// Why primitives are dropped.
#[derive(Clone, Copy, Debug, PartialEq, Eq, Structural)]
pub enum CullRule {
    /// All vertices are enclosed by a primitive that shares a vertex and is
    /// not smaller.
    Redundant,
    /// Most of the surface is inside a primitive that shares a vertex and is
    /// not smaller.
    Overlap,
    /// A detail has most of its surface near a primitive of at least twice its
    /// volume.
    Simplify,
}

/// The state of a cull.
pub struct CullView {
    pub rule: CullRule,
    /// The candidates in the order in which they are gone through.
    pub order: Seq<u32>,
    /// The others in the order in which they are asked.
    pub against: Seq<u32>,
    /// The candidates that read as details, by primitive.
    pub detail: Seq<bool>,
    /// Twice the volume of each primitive.
    pub doubled: Seq<Scalar>,
    pub dropped: Seq<u32>,
    /// What covered each of those dropped.
    pub by: Seq<u32>,
    /// The candidate and the other that are looked at.
    pub i: int,
    pub j: int,
}

/// The primitives have a vertex in common.
pub open spec fn share_vertex(p: PrimView, q: PrimView) -> bool {
    exists|x: u32| #[trigger] p.vertices.contains(x) && q.vertices.contains(x)
}

impl CullView {
    pub open spec fn inv(self, n: int) -> bool {
        &&& self.detail.len() == n
        &&& self.doubled.len() == n
        &&& 0 <= self.i <= self.order.len()
        &&& 0 <= self.j
        &&& self.by.len() == self.dropped.len()
        &&& self.order.no_duplicates()
        &&& forall|k: int| 0 <= k < self.order.len() ==> (#[trigger] self.order[k]) < n
        &&& forall|x: u32| #[trigger] self.order.contains(x) <==> self.against.contains(x)
        &&& forall|k: int| 0 <= k < self.dropped.len() ==> self.order.subrange(0, self.i).contains(
            #[trigger] self.dropped[k],
        )
        &&& self.dropped.no_duplicates()
        &&& forall|k: int|
            0 <= k < self.by.len() ==> self.order.contains(#[trigger] self.by[k]) && !self.dropped.subrange(
                0,
                k + 1,
            ).contains(self.by[k])
    }

    /// Primitive `b` is to be asked whether it covers candidate `a`.
    pub open spec fn admits(self, ps: Seq<PrimView>, a: u32, b: u32) -> bool {
        &&& a != b
        &&& !self.dropped.contains(b)
        &&& match self.rule {
            CullRule::Redundant => share_vertex(ps[a as int], ps[b as int]),
            CullRule::Overlap => !ps[b as int].volume.spec_lt(ps[a as int].volume) && share_vertex(
                ps[a as int],
                ps[b as int],
            ),
            CullRule::Simplify => self.detail[a as int] && !ps[b as int].volume.spec_lt(self.doubled[a as int]),
        }
    }

    /// Being covered by `b` drops candidate `a`.
    pub open spec fn drops(self, ps: Seq<PrimView>, a: u32, b: u32) -> bool {
        self.rule == CullRule::Redundant ==> ps[a as int].volume.spec_le(ps[b as int].volume)
    }

    /// Nothing is to be asked at the places from `(i, j)` up to `(x, y)`.
    pub open spec fn nothing_until(self, ps: Seq<PrimView>, x: int, y: int) -> bool {
        forall|k: int, l: int|
            0 <= k < self.order.len() && 0 <= l < self.against.len() && (self.i < k || (self.i == k && self.j <= l))
                && (k < x || (k == x && l < y)) ==> !(#[trigger] self.admits(ps, self.order[k], self.against[l]))
    }

    /// The answer to the question asked last is taken into account.
    pub open spec fn answered(self, ps: Seq<PrimView>, covered: bool) -> CullView {
        let (a, b) = (self.order[self.i], self.against[self.j]);
        if covered && self.drops(ps, a, b) {
            CullView {
                dropped: self.dropped.push(a),
                by: self.by.push(b),
                i: self.i + 1,
                j: 0,
                ..self
            }
        } else {
            CullView { j: self.j + 1, ..self }
        }
    }
}

/// A yes drops the candidate that was asked about and nothing else: whatever
/// the volumes where most of its surface has to be covered, and where all its
/// vertices have to be enclosed if it is not larger than what encloses it.
/// After a no everything stays.
pub proof fn law_yes_drops_the_candidate(v: CullView, ps: Seq<PrimView>, x: u32)
    requires
        0 <= v.i < v.order.len(),
        0 <= v.j < v.against.len(),
    ensures
        ({
            let (a, b) = (v.order[v.i], v.against[v.j]);
            let w = v.answered(ps, true);
            let falls = match v.rule {
                CullRule::Redundant => ps[a as int].volume.spec_le(ps[b as int].volume),
                CullRule::Overlap => true,
                CullRule::Simplify => true,
            };
            &&& w.dropped.contains(x) <==> v.dropped.contains(x) || (falls && x == a)
            &&& falls ==> w.dropped.last() == a && w.by.last() == b
            &&& falls ==> w.dropped.len() == v.dropped.len() + 1
            &&& v.answered(ps, false).dropped == v.dropped
            &&& v.answered(ps, false).by == v.by
        }),
{
    let a = v.order[v.i];
    lemma_push_contains(v.dropped, a, x);
}

/// Who is asked about a candidate: another primitive that has not been dropped.
/// Enclosure and overlap are asked of those that share a vertex, overlap of
/// those that are not smaller; a detail is held against those of at least twice
/// its volume, and nothing else is a candidate there.
pub proof fn law_who_is_asked(v: CullView, ps: Seq<PrimView>, a: u32, b: u32)
    ensures
        v.admits(ps, a, b) ==> a != b && !v.dropped.contains(b),
        v.rule == CullRule::Redundant ==> (v.admits(ps, a, b) <==> a != b && !v.dropped.contains(b) && exists|x: u32| #[trigger]
            ps[a as int].vertices.contains(x) && ps[b as int].vertices.contains(x)),
        v.rule == CullRule::Overlap ==> (v.admits(ps, a, b) <==> a != b && !v.dropped.contains(b) && !ps[b as int].volume.spec_lt(
            ps[a as int].volume,
        ) && exists|x: u32| #[trigger] ps[a as int].vertices.contains(x) && ps[b as int].vertices.contains(x)),
        v.rule == CullRule::Simplify ==> (v.admits(ps, a, b) <==> a != b && !v.dropped.contains(b) && v.detail[a as int]
            && !ps[b as int].volume.spec_lt(v.doubled[a as int])),
{
}

/// A cull never drops everything.
pub proof fn law_cull_keeps_one(v: CullView, n: int)
    requires
        v.inv(n),
        v.order.len() > 0,
    ensures
        exists|x: u32| v.order.contains(x) && !(#[trigger] v.dropped.contains(x)),
{
    if v.dropped.len() == 0 {
        assert(v.order.contains(v.order[0]) && !v.dropped.contains(v.order[0]));
    } else {
        let k = v.by.len() - 1;
        assert(v.dropped.subrange(0, k + 1) =~= v.dropped);
        assert(v.order.contains(v.by[k]) && !v.dropped.contains(v.by[k]));
    }
}

/// A cull in progress.
pub struct Cull {
    rule: CullRule,
    order: Vec<u32>,
    against: Vec<u32>,
    detail: Vec<bool>,
    doubled: Vec<Scalar>,
    gone: Vec<bool>,
    dropped: Vec<u32>,
    i: usize,
    j: usize,
    by: Ghost<Seq<u32>>,
}

impl View for Cull {
    type V = CullView;

    closed spec fn view(&self) -> CullView {
        CullView {
            rule: self.rule,
            order: self.order@,
            against: self.against@,
            detail: self.detail@,
            doubled: self.doubled@,
            dropped: self.dropped@,
            by: self.by@,
            i: self.i as int,
            j: self.j as int,
        }
    }
}

impl Cull {
    pub closed spec fn wf(&self, n: int) -> bool {
        &&& self@.inv(n)
        &&& self.gone@.len() == n
        &&& forall|x: u32| x < n ==> #[trigger] self.gone@[x as int] == self.dropped@.contains(x)
    }

    pub proof fn lemma_inv(&self, n: int)
        requires
            self.wf(n),
        ensures
            self@.inv(n),
    {
    }

    fn start(rule: CullRule, order: Vec<u32>, against: Vec<u32>, detail: Vec<bool>, doubled: Vec<Scalar>, n: usize) -> (
    res: Self)
        requires
            detail@.len() == n,
            doubled@.len() == n,
            order@.no_duplicates(),
            forall|k: int| 0 <= k < order@.len() ==> (#[trigger] order@[k]) < n,
            forall|x: u32| #[trigger] order@.contains(x) <==> against@.contains(x),
        ensures
            res.wf(n as int),
            res@ == (CullView {
                rule,
                order: order@,
                against: against@,
                detail: detail@,
                doubled: doubled@,
                dropped: Seq::empty(),
                by: Seq::empty(),
                i: 0,
                j: 0,
            }),
    {
        let mut gone: Vec<bool> = Vec::new();
        let mut k: usize = 0;
        while k < n
            invariant
                k <= n,
                gone@.len() == k,
                forall|x: int| 0 <= x < k ==> !(#[trigger] gone@[x]),
            decreases n - k,
        {
            gone.push(false);
            k += 1;
        }
        Cull { rule, order, against, detail, doubled, gone, dropped: Vec::new(), i: 0, j: 0, by: Ghost(Seq::empty()) }
    }

    /// The cull of primitives that enclose each other: candidates and others
    /// in the order of the primitives.
    pub fn new(rule: CullRule, prims: &Vec<Primitive>) -> (res: Self)
        requires
            prims@.len() <= u32::MAX,
            rule != CullRule::Simplify,
        ensures
            res.wf(prims@.len() as int),
            res@.rule == rule,
            res@.dropped.len() == 0,
            res@.i == 0,
            res@.j == 0,
            is_set(res@.order),
            res@.against == res@.order,
            forall|x: u32| #[trigger] res@.order.contains(x) <==> x < prims@.len() && prims@[x as int].alive,
    {
        let order = live_indices(prims);
        let against = live_indices(prims);
        proof {
            crate::sets::lemma_set_unique(order@, against@);
            assert forall|k: int| 0 <= k < order@.len() implies (#[trigger] order@[k]) < prims@.len() by {
                assert(order@.contains(order@[k]));
            }
        }
        let mut detail: Vec<bool> = Vec::new();
        let mut doubled: Vec<Scalar> = Vec::new();
        let mut k: usize = 0;
        while k < prims.len()
            invariant
                k <= prims@.len(),
                detail@.len() == k,
                doubled@.len() == k,
            decreases prims@.len() - k,
        {
            detail.push(true);
            doubled.push(Scalar::zero());
            k += 1;
        }
        Cull::start(rule, order, against, detail, doubled, prims.len())
    }

    /// The cull of details: candidates from the smallest volume up, others
    /// from the largest down. It is told which primitives read as details and
    /// twice the volume of each.
    pub fn simplify(prims: &Vec<Primitive>, detail: Vec<bool>, doubled: Vec<Scalar>) -> (res: Self)
        requires
            prims@.len() <= u32::MAX,
            detail@.len() == prims@.len(),
            doubled@.len() == prims@.len(),
        ensures
            res.wf(prims@.len() as int),
            res@.rule == CullRule::Simplify,
            res@.detail == detail@,
            res@.doubled == doubled@,
            res@.dropped.len() == 0,
            res@.i == 0,
            res@.j == 0,
            res@.against == res@.order.reverse(),
            forall|x: u32| #[trigger] res@.order.contains(x) <==> x < prims@.len() && prims@[x as int].alive,
            forall|k: int, l: int|
                0 <= k < l < res@.order.len() ==> by_volume(views(prims@), #[trigger] res@.order[k], #[trigger] res@.order[l]),
    {
        let live = live_indices(prims);
        let mut volumes: Vec<Scalar> = Vec::new();
        let mut k: usize = 0;
        while k < live.len()
            invariant
                forall|x: u32| #[trigger] live@.contains(x) <==> x < prims@.len() && prims@[x as int].alive,
                k <= live@.len(),
                volumes@.len() == k,
                forall|x: int| 0 <= x < k ==> #[trigger] volumes@[x] == prims@[live@[x] as int].volume,
            decreases live@.len() - k,
        {
            assert(live@.contains(live@[k as int]));
            volumes.push(prims[live[k] as usize].volume);
            k += 1;
        }
        let r = rank_ascending(&volumes);
        let mut order: Vec<u32> = Vec::new();
        let mut against: Vec<u32> = Vec::new();
        let mut m: usize = 0;
        let n: usize = r.len();
        while m < n
            invariant
                n == r@.len(),
                live@.len() == n,
                is_ranking(ascending(volumes@), r@),
                volumes@.len() == n,
                m <= n,
                order@.len() == m,
                against@.len() == m,
                forall|x: int| 0 <= x < m ==> #[trigger] order@[x] == live@[r@[x] as int],
                forall|x: int| 0 <= x < m ==> #[trigger] against@[x] == live@[r@[n - 1 - x] as int],
            decreases n - m,
        {
            assert(r@.contains(r@[m as int]) && r@.contains(r@[n - 1 - m]));
            order.push(live[r[m]]);
            against.push(live[r[n - 1 - m]]);
            m += 1;
        }
        proof {
            let ks = ascending(volumes@);
            assert(against@ =~= order@.reverse());
            assert forall|x: u32| #[trigger] order@.contains(x) <==> live@.contains(x) by {
                if order@.contains(x) {
                    let i = choose|i: int| 0 <= i < n && order@[i] == x;
                    assert(r@.contains(r@[i]));
                    assert(live@[r@[i] as int] == x);
                }
                if live@.contains(x) {
                    let i = choose|i: int| 0 <= i < n && live@[i] == x;
                    assert(r@.contains(i as usize));
                    let k = choose|k: int| 0 <= k < n && r@[k] == i as usize;
                    assert(order@[k] == x);
                }
            }
            assert forall|x: u32| #[trigger] order@.contains(x) <==> against@.contains(x) by {
                if order@.contains(x) {
                    let i = choose|i: int| 0 <= i < n && order@[i] == x;
                    assert(against@[n - 1 - i] == x);
                }
                if against@.contains(x) {
                    let i = choose|i: int| 0 <= i < n && against@[i] == x;
                    assert(order@[n - 1 - i] == x);
                }
            }
            assert forall|k: int, l: int| 0 <= k < l < n implies by_volume(
                views(prims@),
                #[trigger] order@[k],
                #[trigger] order@[l],
            ) by {
                assert(r@.contains(r@[k]) && r@.contains(r@[l]));
                assert(crate::order::before(ks, r@[k], r@[l]));
                assert(live@.contains(live@[r@[k] as int]) && live@.contains(live@[r@[l] as int]));
                if r@[k] < r@[l] {
                    assert(live@[r@[k] as int] < live@[r@[l] as int]);
                }
            }
            assert forall|k: int| 0 <= k < n implies (#[trigger] order@[k]) < prims@.len() by {
                assert(order@.contains(order@[k]));
            }
            assert(order@.no_duplicates());
        }
        Cull::start(CullRule::Simplify, order, against, detail, doubled, prims.len())
    }

    /// The next question: is this candidate covered by that primitive? `None`
    /// ends the cull.
    pub fn next(&mut self, prims: &Vec<Primitive>) -> (pair: Option<(u32, u32)>)
        requires
            old(self).wf(prims@.len() as int),
            all_wf(prims@),
        ensures
            final(self).wf(prims@.len() as int),
            ({
                let (v, w, ps) = (old(self)@, final(self)@, views(prims@));
                match pair {
                    Some((a, b)) => {
                        &&& w == (CullView { i: w.i, j: w.j, ..v })
                        &&& v.i < w.i || (v.i == w.i && v.j <= w.j)
                        &&& w.i < v.order.len() && w.j < v.against.len()
                        &&& a == v.order[w.i] && b == v.against[w.j]
                        &&& v.admits(ps, a, b)
                        &&& v.nothing_until(ps, w.i, w.j)
                    },
                    None => w == (CullView { i: v.order.len() as int, j: 0, ..v }) && v.nothing_until(
                        ps,
                        v.order.len() as int,
                        0,
                    ),
                }
            }),
    {
        let ghost v = self@;
        let ghost ps = views(prims@);
        let ghost n = prims@.len() as int;
        while self.i < self.order.len()
            invariant
                self.wf(n),
                n == prims@.len(),
                all_wf(prims@),
                v == old(self)@,
                ps == views(prims@),
                self@ == (CullView { i: self@.i, j: self@.j, ..v }),
                v.i < self@.i || (v.i == self@.i && v.j <= self@.j),
                v.nothing_until(ps, self@.i, self@.j),
            decreases self.order@.len() - self.i, self.against@.len() - self.j,
        {
            if self.j >= self.against.len() {
                proof {
                    self.lemma_widen(n);
                }
                self.i = self.i + 1;
                self.j = 0;
            } else {
                let (a, b): (u32, u32) = (self.order[self.i], self.against[self.j]);
                assert(self.against@.contains(b));
                assert(self.order@.contains(b));
                assert(v.admits(ps, a, b) == self@.admits(ps, a, b));
                if self.asks(prims, a, b) {
                    return Some((a, b));
                }
                self.j = self.j + 1;
            }
        }
        if self.j > 0 {
            self.j = 0;
        }
        None
    }

    proof fn lemma_widen(&self, n: int)
        requires
            self.wf(n),
            self.i < self.order@.len(),
        ensures
            forall|k: int|
                0 <= k < self.dropped@.len() ==> self.order@.subrange(0, self.i + 1).contains(#[trigger] self.dropped@[k]),
    {
        let (s, t) = (self.order@.subrange(0, self.i as int), self.order@.subrange(0, self.i + 1));
        assert forall|k: int| 0 <= k < self.dropped@.len() implies t.contains(#[trigger] self.dropped@[k]) by {
            assert(s.contains(self.dropped@[k]));
            let m = choose|m: int| 0 <= m < s.len() && s[m] == self.dropped@[k];
            assert(t[m] == self.dropped@[k]);
        }
    }

    fn asks(&self, prims: &Vec<Primitive>, a: u32, b: u32) -> (yes: bool)
        requires
            self.wf(prims@.len() as int),
            all_wf(prims@),
            a < prims@.len(),
            b < prims@.len(),
        ensures
            yes == self@.admits(views(prims@), a, b),
    {
        if a == b || self.gone[b as usize] {
            return false;
        }
        let (x, y): (usize, usize) = (a as usize, b as usize);
        assert(prims@[a as int].wf() && prims@[b as int].wf());
        assert(views(prims@)[a as int].vertices == prims@[a as int].vertex_indices@);
        assert(views(prims@)[b as int].vertices == prims@[b as int].vertex_indices@);
        match self.rule {
            CullRule::Redundant => shares_member(&prims[x].vertex_indices, &prims[y].vertex_indices),
            CullRule::Overlap => !prims[x].volume.gt(prims[y].volume) && shares_member(
                &prims[x].vertex_indices,
                &prims[y].vertex_indices,
            ),
            CullRule::Simplify => self.detail[x] && !prims[y].volume.lt(self.doubled[x]),
        }
    }

    /// The answer to the question that was asked last.
    pub fn answer(&mut self, prims: &Vec<Primitive>, covered: bool)
        requires
            old(self).wf(prims@.len() as int),
            old(self)@.i < old(self)@.order.len(),
            old(self)@.j < old(self)@.against.len(),
            old(self)@.admits(
                views(prims@),
                old(self)@.order[old(self)@.i],
                old(self)@.against[old(self)@.j],
            ),
        ensures
            final(self).wf(prims@.len() as int),
            final(self)@ == old(self)@.answered(views(prims@), covered),
            ({
                let (v, w) = (old(self)@, final(self)@);
                let (a, b) = (v.order[v.i], v.against[v.j]);
                let falls = covered && (v.rule == CullRule::Redundant ==> prims@[a as int].volume.spec_le(
                    prims@[b as int].volume,
                ));
                &&& w.rule == v.rule && w.order == v.order && w.against == v.against
                &&& w.detail == v.detail && w.doubled == v.doubled
                &&& w.dropped == (if falls {
                    v.dropped.push(a)
                } else {
                    v.dropped
                })
                &&& falls ==> w.by == v.by.push(b) && w.i == v.i + 1 && w.j == 0
                &&& !falls ==> w.by == v.by && w.i == v.i && w.j == v.j + 1
            }),
    {
        let ghost v = self@;
        let ghost n = prims@.len() as int;
        assert(self.i < self.order.len() && self.j < self.against.len());
        let (a, b): (u32, u32) = (self.order[self.i], self.against[self.j]);
        assert(self.against@.contains(b));
        assert(self.order@.contains(b));
        let smaller: bool = match self.rule {
            CullRule::Redundant => prims[a as usize].volume.le(prims[b as usize].volume),
            _ => true,
        };
        if covered && smaller {
            proof {
                self.lemma_widen(n);
                let t = self.order@.subrange(0, self.i + 1);
                assert(t[self.i as int] == a);
                assert(!self.dropped@.contains(a)) by {
                    if self.dropped@.contains(a) {
                        let k = choose|k: int| 0 <= k < self.dropped@.len() && self.dropped@[k] == a;
                        let s = self.order@.subrange(0, self.i as int);
                        assert(s.contains(self.dropped@[k]));
                        let m = choose|m: int| 0 <= m < s.len() && s[m] == a;
                        assert(self.order@[m] == self.order@[self.i as int]);
                    }
                }
            }
            let ghost before = *self;
            self.dropped.push(a);
            self.gone.set(a as usize, true);
            self.by = Ghost(before.by@.push(b));
            self.i = self.i + 1;
            self.j = 0;
            proof {
                let w = self@;
                assert forall|x: u32| x < n implies #[trigger] self.gone@[x as int] == self.dropped@.contains(x) by {
                    lemma_push_contains(before.dropped@, a, x);
                    assert(before.gone@[x as int] == before.dropped@.contains(x));
                }
                assert forall|k: int| 0 <= k < w.dropped.len() implies w.order.subrange(0, w.i).contains(
                    #[trigger] w.dropped[k],
                ) by {
                    if k < before.dropped@.len() {
                        assert(w.dropped[k] == before.dropped@[k]);
                    } else {
                        let t = w.order.subrange(0, w.i);
                        assert(t[before.i as int] == a);
                    }
                }
                assert forall|k: int| 0 <= k < w.by.len() implies w.order.contains(#[trigger] w.by[k])
                    && !w.dropped.subrange(0, k + 1).contains(w.by[k]) by {
                    if k < before.by@.len() {
                        assert(w.by[k] == before.by@[k]);
                        assert(w.dropped.subrange(0, k + 1) =~= before.dropped@.subrange(0, k + 1));
                    } else {
                        assert(w.dropped.subrange(0, k + 1) =~= before.dropped@.push(a));
                        lemma_push_contains(before.dropped@, a, b);
                    }
                }
            }
        } else {
            self.j = self.j + 1;
        }
    }

    /// Marks the dropped primitives dead; details also lose what they held.
    /// Returns how many were dropped.
    pub fn apply(&self, prims: &mut Vec<Primitive>) -> (count: usize)
        requires
            self.wf(old(prims)@.len() as int),
            all_wf(old(prims)@),
        ensures
            count == self@.dropped.len(),
            final(prims)@.len() == old(prims)@.len(),
            all_wf(final(prims)@),
            forall|k: u32|
                k < old(prims)@.len() ==> (#[trigger] final(prims)@[k as int])@ == (if !self@.dropped.contains(k) {
                    old(prims)@[k as int]@
                } else if self@.rule == CullRule::Simplify {
                    emptied(old(prims)@[k as int]@)
                } else {
                    PrimView { alive: false, ..old(prims)@[k as int]@ }
                }),
    {
        let ghost start = prims@;
        let ghost n = prims@.len() as int;
        let mut k: usize = 0;
        while k < self.dropped.len()
            invariant
                self.wf(n),
                n == start.len(),
                prims@.len() == n,
                all_wf(prims@),
                k <= self.dropped@.len(),
                forall|x: u32|
                    x < n ==> (#[trigger] prims@[x as int])@ == (if !self.dropped@.subrange(0, k as int).contains(x) {
                        start[x as int]@
                    } else if self.rule == CullRule::Simplify {
                        emptied(start[x as int]@)
                    } else {
                        PrimView { alive: false, ..start[x as int]@ }
                    }),
            decreases self.dropped@.len() - k,
        {
            let a: u32 = self.dropped[k];
            let ghost seen = self.dropped@.subrange(0, k as int);
            let ghost before = prims@;
            proof {
                let t = self.order@.subrange(0, self.i as int);
                assert(t.contains(self.dropped@[k as int]));
                let m = choose|m: int| 0 <= m < t.len() && t[m] == a;
                assert(self.order@[m] == a);
                assert(self.dropped@.subrange(0, k + 1) =~= seen.push(a));
                assert(!seen.contains(a)) by {
                    if seen.contains(a) {
                        let j = choose|j: int| 0 <= j < seen.len() && seen[j] == a;
                        assert(self.dropped@[j] == self.dropped@[k as int]);
                    }
                }
            }
            match self.rule {
                CullRule::Simplify => {
                    clear_slot(prims, a);
                },
                _ => {
                    prims[a as usize].alive = false;
                },
            }
            proof {
                assert forall|x: u32| x < n implies (#[trigger] prims@[x as int])@ == (if !self.dropped@.subrange(
                    0,
                    k + 1,
                ).contains(x) {
                    start[x as int]@
                } else if self.rule == CullRule::Simplify {
                    emptied(start[x as int]@)
                } else {
                    PrimView { alive: false, ..start[x as int]@ }
                }) by {
                    lemma_push_contains(seen, a, x);
                    if x != a {
                        assert(prims@[x as int] == before[x as int]);
                    } else {
                        assert(before[x as int]@ == start[x as int]@);
                    }
                }
            }
            k += 1;
        }
        assert(self.dropped@.subrange(0, k as int) =~= self.dropped@);
        self.dropped.len()
    }
}

/// Primitive `a` comes before `b` by volume, ties by index.
pub open spec fn by_volume(ps: Seq<PrimView>, a: u32, b: u32) -> bool {
    let (x, y) = (ps[a as int].volume.spec_key(), ps[b as int].volume.spec_key());
    x < y || (x == y && a < b)
}

/// The box is at most `tol` thick.
pub open spec fn is_thin_box(p: Prim, tol: Scalar) -> bool {
    match p {
        Prim::Obb { half_extents, .. } => half_extents[0].spec_min(half_extents[1]).spec_min(half_extents[2]).spec_le(tol),
        _ => false,
    }
}

/// A box is thin where one of its half extents is at most the tolerance; no
/// other shape is.
pub proof fn law_thin_box_has_a_thin_side(p: Prim, tol: Scalar)
    ensures
        is_thin_box(p, tol) ==> p is Obb,
        p matches Prim::Obb { center, axes, half_extents: h } ==> !h[0].spec_is_nan() && !h[1].spec_is_nan()
            && !h[2].spec_is_nan() ==> (is_thin_box(p, tol) <==> h[0].spec_le(tol) || h[1].spec_le(tol) || h[2].spec_le(tol)),
{
}

/// Drops the live boxes whose smallest half extent is at most `tol`. Returns
/// how many there were.
pub fn strip_thin_obbs(prims: &mut Vec<Primitive>, tol: Scalar) -> (count: usize)
    ensures
        final(prims)@.len() == old(prims)@.len(),
        forall|k: int|
            0 <= k < old(prims)@.len() ==> (#[trigger] final(prims)@[k])@ == (if is_thin_box(old(prims)@[k].prim, tol) {
                PrimView { alive: false, ..old(prims)@[k]@ }
            } else {
                old(prims)@[k]@
            }),
        all_wf(old(prims)@) ==> all_wf(final(prims)@),
        count + crate::primitive::live_count(views(final(prims)@)) == crate::primitive::live_count(
            views(old(prims)@),
        ),
{
    let ghost start = prims@;
    let n: usize = prims.len();
    let mut count: usize = 0;
    let mut k: usize = 0;
    while k < n
        invariant
            n == start.len(),
            prims@.len() == n,
            k <= n,
            count <= k,
            forall|x: int| k <= x < n ==> #[trigger] prims@[x] == start[x],
            forall|x: int|
                0 <= x < k ==> (#[trigger] prims@[x])@ == (if is_thin_box(start[x].prim, tol) {
                    PrimView { alive: false, ..start[x]@ }
                } else {
                    start[x]@
                }),
            all_wf(start) ==> all_wf(prims@),
            count + crate::primitive::live_count(views(prims@).subrange(0, k as int))
                == crate::primitive::live_count(views(start).subrange(0, k as int)),
        decreases n - k,
    {
        let ghost before = prims@;
        let thin: bool = match prims[k].prim {
            Prim::Obb { center, axes, half_extents } => half_extents[0].min(half_extents[1]).min(half_extents[2]).le(tol),
            _ => false,
        };
        if prims[k].alive && thin {
            prims[k].alive = false;
            count += 1;
        }
        proof {
            let (a, b) = (views(prims@).subrange(0, k + 1), views(start).subrange(0, k + 1));
            assert(a.drop_last() =~= views(before).subrange(0, k as int));
            assert(b.drop_last() =~= views(start).subrange(0, k as int));
            assert(views(before).subrange(0, k as int) =~= views(prims@).subrange(0, k as int));
            assert(before[k as int] == start[k as int]);
        }
        k += 1;
    }
    proof {
        assert(views(prims@).subrange(0, k as int) =~= views(prims@));
        assert(views(start).subrange(0, k as int) =~= views(start));
    }
    count
}

/// Where nothing is to be asked up to a place, no pair before it qualifies: for
/// each candidate before it, and for its own candidate as far as it was asked.
pub proof fn law_nobody_is_passed_over(v: CullView, ps: Seq<PrimView>, x: int, y: int, k: int, l: int)
    requires
        v.nothing_until(ps, x, y),
        0 <= k < v.order.len(),
        0 <= l < v.against.len(),
    ensures
        v.i < k < x ==> !v.admits(ps, v.order[k], v.against[l]),
        v.i == k && k < x && v.j <= l ==> !v.admits(ps, v.order[k], v.against[l]),
        v.i < k && k == x && l < y ==> !v.admits(ps, v.order[k], v.against[l]),
        v.i == k && k == x && v.j <= l < y ==> !v.admits(ps, v.order[k], v.against[l]),
{
}

/// The order by volume puts no primitive before a smaller one, and tells any
/// two apart.
pub proof fn law_order_by_volume(ps: Seq<PrimView>, a: u32, b: u32)
    ensures
        ps[a as int].volume.spec_lt(ps[b as int].volume) ==> by_volume(ps, a, b) && !by_volume(ps, b, a),
        ps[a as int].volume == ps[b as int].volume && a < b ==> by_volume(ps, a, b),
        a != b ==> by_volume(ps, a, b) != by_volume(ps, b, a),
        !by_volume(ps, a, a),
{
}

} // verus!
