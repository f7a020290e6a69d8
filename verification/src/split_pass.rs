//! The pass that splits the worst primitives.

use crate::faces::{FaceRings, RingsView};
use crate::mesh::Adjacency;
use crate::primitive::{
    PrimView, Primitive, all_wf, count_true, emptied, lemma_live_count_listed, lemma_live_count_parts, live_count,
    views,
};
use crate::regroup::{Groups, GroupsView, Shape, divides, law_divide_keeps_groups, rebuild, regrown};
use crate::report::SplitPhase;
use crate::scalar::Scalar;
use crate::select::{pick_worst, worst_index};
use crate::sets::is_set;
use crate::split::{ScoredSplit, SplitPassMode, has_tiny_half, may_replace};
use crate::surface::Surface;
use vstd::prelude::*;

verus! {

/// Diagnostics of the split pass: of one primitive, or of all.
#[derive(Clone, Copy, Debug, PartialEq, Eq, Structural)]
pub struct SplitDebugOpts {
    pub primitive: Option<u32>,
}

/// The group to try next. With `debug_only` it is tried for diagnostics and
/// not split.
#[derive(Clone, Copy, Debug, PartialEq, Eq, Structural)]
pub struct Pick {
    pub pid: usize,
    pub debug_only: bool,
    /// The score it was picked with.
    pub score: Scalar,
}

impl Pick {
    /// The split that is made of those looked at, if one was chosen.
    pub fn settles(self, chosen: Option<usize>) -> (kept: Option<usize>)
        ensures
            kept == (if self.debug_only {
                None
            } else {
                chosen
            }),
    {
        if self.debug_only {
            None
        } else {
            chosen
        }
    }
}

/// How splits are judged in a phase: slabs are repaired in theirs.
pub fn mode_of(phase: SplitPhase) -> (mode: SplitPassMode)
    ensures
        mode == (if phase == SplitPhase::BadSlabRepair {
            SplitPassMode::SlabCornerRepair
        } else {
            SplitPassMode::General
        }),
{
    match phase {
        SplitPhase::BadSlabRepair => SplitPassMode::SlabCornerRepair,
        _ => SplitPassMode::General,
    }
}

/// Whether splits are also sought round the sample that strays farthest: before
/// the refinement where that is asked for, afterwards always.
pub fn seeks_error_region(phase: SplitPhase, asked_for: bool) -> (b: bool)
    ensures
        b == (asked_for || phase != SplitPhase::PreRefine),
{
    asked_for || phase != SplitPhase::PreRefine
}

/// Whether splits are sought round the sample that lies farthest outside: in a
/// repair, where that is the greater fault.
pub fn looks_outside(mode: SplitPassMode, score: Scalar, outside: Scalar) -> (b: bool)
    ensures
        b == (mode == SplitPassMode::SlabCornerRepair && score.spec_le(outside)),
{
    mode == SplitPassMode::SlabCornerRepair && score.le(outside)
}

/// The state of a split pass.
pub struct SplitPassView {
    pub groups: GroupsView,
    /// The primitive that each group is.
    pub roots: Seq<u32>,
    /// The groups whose primitives are alive; only those are split.
    pub live: Seq<bool>,
    /// How many there were at the start.
    pub started: int,
    /// The groups that were tried in vain.
    pub tried: Seq<bool>,
    pub splits_done: int,
    pub max_splits: int,
    pub mode: SplitPassMode,
    pub debug: Option<SplitDebugOpts>,
    /// The group that is being tried.
    pub picked: Option<Pick>,
}

impl SplitPassView {
    pub open spec fn inv(self) -> bool {
        &&& self.groups.consistent()
        &&& self.roots.len() == self.groups.groups.len()
        &&& self.tried.len() == self.groups.groups.len()
        &&& self.live.len() == self.groups.groups.len()
        &&& count_true(self.live) == self.started + self.splits_done
        &&& 0 <= self.splits_done <= self.max_splits
        &&& self.picked matches Some(p) ==> {
            &&& p.pid < self.groups.groups.len()
            &&& self.open(p.pid as int)
            &&& self.splits_done < self.max_splits
        }
    }

    /// The group that is being tried may be split in this way: it is not tried
    /// for diagnostics alone, and the worse half scores less than it does.
    pub open spec fn may_accept(self, pid: int, a: Seq<u32>, b: Seq<u32>, split: ScoredSplit) -> bool {
        &&& self.picked matches Some(p) && p.pid == pid && !p.debug_only && may_replace(split, p.score, self.mode)
        &&& split.tiny == has_tiny_half(a, b)
        &&& divides(self.groups.groups[pid], a, b)
    }

    /// The group is alive, can be split and has not been tried.
    pub open spec fn open(self, pid: int) -> bool {
        self.live[pid] && !self.tried[pid] && self.groups.groups[pid].len() >= 2
    }

    /// The groups that may be picked for their score.
    pub open spec fn admitted(self, eligible: Seq<bool>) -> Seq<bool> {
        Seq::new(self.groups.groups.len(), |pid: int| self.open(pid) && eligible[pid])
    }

    /// The group is, or holds, the given primitive.
    pub open spec fn is_or_holds(self, pid: int, target: u32) -> bool {
        self.roots[pid] == target || (target < self.groups.faces() && self.groups.assignment[target as int] == pid)
    }

    /// The primitive that diagnostics ask for.
    pub open spec fn wanted(self) -> Option<u32> {
        match self.debug {
            Some(d) => d.primitive,
            None => None,
        }
    }

    /// The group is to be tried for diagnostics, though it is not bad.
    pub open spec fn forced(self, pid: int) -> bool {
        self.wanted() matches Some(target) && self.is_or_holds(pid, target) && self.open(pid)
    }

    /// This is the group to try next.
    pub open spec fn is_next(self, eligible: Seq<bool>, scores: Seq<Scalar>, pick: Option<Pick>) -> bool {
        let worst = worst_index((Scalar { bits: 0x3f80_0000 }), self.admitted(eligible), scores);
        match pick {
            Some(p) => {
                &&& self.splits_done < self.max_splits
                &&& p.pid < self.groups.groups.len()
                &&& self.open(p.pid as int)
                &&& p.score == scores[p.pid as int]
                &&& !p.debug_only ==> worst == Some(p.pid as int)
                &&& p.debug_only ==> worst is None && self.forced(p.pid as int) && forall|q: int|
                    0 <= q < p.pid ==> !(#[trigger] self.forced(q))
            },
            None => self.splits_done >= self.max_splits || (worst is None && forall|q: int|
                0 <= q < self.groups.groups.len() ==> !(#[trigger] self.forced(q))),
        }
    }

    /// Diagnostics of this group are asked for.
    pub open spec fn debugged(self, pid: int) -> bool {
        match self.debug {
            None => false,
            Some(d) => match d.primitive {
                None => true,
                Some(target) => self.is_or_holds(pid, target),
            },
        }
    }

    /// Group `pid` has been split into `a` and `b`.
    pub open spec fn accepted(self, pid: int, a: Seq<u32>, b: Seq<u32>) -> SplitPassView {
        SplitPassView {
            groups: self.groups.divided(pid, a, b),
            roots: self.roots.update(pid, a[0]).push(b[0]),
            live: self.live.push(true),
            tried: self.tried.push(false),
            splits_done: self.splits_done + 1,
            picked: None,
            ..self
        }
    }

    /// Group `pid` has been tried in vain.
    pub open spec fn given_up(self, pid: int) -> SplitPassView {
        SplitPassView { tried: self.tried.update(pid, true), picked: None, ..self }
    }
}

/// A split keeps the groups consistent and adds one, which is alive; splits
/// never exceed the limit.
pub proof fn law_split_adds_a_group(v: SplitPassView, pid: int, a: Seq<u32>, b: Seq<u32>)
    requires
        v.inv(),
        0 <= pid < v.groups.groups.len(),
        v.live[pid],
        v.splits_done < v.max_splits,
        divides(v.groups.groups[pid], a, b),
    ensures
        v.accepted(pid, a, b).inv(),
        v.accepted(pid, a, b).groups.groups.len() == v.groups.groups.len() + 1,
        count_true(v.accepted(pid, a, b).live) == count_true(v.live) + 1,
{
    law_divide_keeps_groups(v.groups, pid, a, b);
    assert(v.live.push(true).drop_last() =~= v.live);
}

/// Of the primitives that stand for faces, only those that own faces are alive.
pub open spec fn only_owners_live(ps: Seq<PrimView>, rv: RingsView) -> bool {
    forall|i: int| 0 <= i < rv.len() && (#[trigger] ps[i]).alive ==> rv.is_root(i as u32)
}

/// The pass that repeatedly splits the worst primitive.
pub struct SplitPass {
    groups: Groups,
    roots: Vec<u32>,
    live: Vec<bool>,
    started: Ghost<int>,
    tried: Vec<bool>,
    splits_done: usize,
    max_splits: usize,
    mode: SplitPassMode,
    debug: Option<SplitDebugOpts>,
    picked: Option<Pick>,
}

impl View for SplitPass {
    type V = SplitPassView;

    closed spec fn view(&self) -> SplitPassView {
        SplitPassView {
            groups: self.groups@,
            roots: self.roots@,
            live: self.live@,
            started: self.started@,
            tried: self.tried@,
            splits_done: self.splits_done as int,
            max_splits: self.max_splits as int,
            mode: self.mode,
            debug: self.debug,
            picked: self.picked,
        }
    }
}

impl SplitPass {
    pub closed spec fn wf(&self) -> bool {
        self@.inv() && self.groups.wf()
    }

    pub proof fn lemma_inv(&self)
        requires
            self.wf(),
        ensures
            self@.inv(),
    {
    }

    /// Starts from the primitives of a partition; none has been tried. Those
    /// that are not alive are never split.
    pub fn new(
        rings: &mut FaceRings,
        prims: &Vec<Primitive>,
        max_splits: usize,
        mode: SplitPassMode,
        debug: Option<SplitDebugOpts>,
    ) -> (res: Self)
        requires
            old(rings).wf(),
            old(rings)@.len() <= prims@.len(),
        ensures
            final(rings).wf(),
            final(rings)@ == old(rings)@,
            res.wf(),
            res@.groups.faces() == old(rings)@.len(),
            forall|f: int|
                0 <= f < old(rings)@.len() ==> res@.roots[#[trigger] res@.groups.assignment[f] as int] == old(
                    rings,
                )@.owner[f],
            forall|g: int, h: int| 0 <= g < h < res@.roots.len() ==> #[trigger] res@.roots[g] != #[trigger] res@.roots[h],
            forall|g: int| 0 <= g < res@.groups.groups.len() ==> is_set(#[trigger] res@.groups.groups[g]),
            forall|g: int, h: int|
                0 <= g < h < res@.groups.groups.len() ==> (#[trigger] res@.groups.groups[g])[0] < (
                #[trigger] res@.groups.groups[h])[0],
            forall|g: int|
                0 <= g < res@.roots.len() ==> (#[trigger] res@.roots[g]) < prims@.len() && res@.live[g]
                    == prims@[res@.roots[g] as int].alive,
            only_owners_live(views(prims@), old(rings)@) ==> res@.started == live_count(
                views(prims@).subrange(0, old(rings)@.len() as int),
            ),
            forall|g: int| 0 <= g < res@.tried.len() ==> !(#[trigger] res@.tried[g]),
            res@.splits_done == 0,
            res@.max_splits == max_splits,
            res@.mode == mode,
            res@.debug == debug,
            res@.picked is None,
    {
        let ghost rv = rings@;
        proof {
            rings.lemma_view();
        }
        let (groups, roots) = Groups::from_rings(rings);
        proof {
            groups.lemma_view();
            assert forall|g: int| 0 <= g < roots@.len() implies rv.is_root(#[trigger] roots@[g]) by {
                let f = groups@.groups[g][0];
                assert(groups@.groups[g].contains(f));
                assert(roots@[groups@.assignment[f as int] as int] == rv.owner[f as int]);
            }
        }
        let mut tried: Vec<bool> = Vec::new();
        let mut live: Vec<bool> = Vec::new();
        let mut i: usize = 0;
        while i < roots.len()
            invariant
                i <= roots@.len(),
                rv.len() <= prims@.len(),
                forall|g: int| 0 <= g < roots@.len() ==> rv.is_root(#[trigger] roots@[g]),
                tried@.len() == i,
                forall|g: int| 0 <= g < i ==> !(#[trigger] tried@[g]),
                live@.len() == i,
                forall|g: int| 0 <= g < i ==> #[trigger] live@[g] == prims@[roots@[g] as int].alive,
            decreases roots@.len() - i,
        {
            assert(rv.is_root(roots@[i as int]));
            tried.push(false);
            live.push(prims[roots[i] as usize].alive);
            i += 1;
        }
        proof {
            let ps = views(prims@).subrange(0, rv.len() as int);
            if only_owners_live(views(prims@), rv) {
                assert forall|k: int| 0 <= k < ps.len() && !roots@.contains(k as u32) implies !(#[trigger] ps[k]).alive by {
                    if ps[k].alive {
                        assert(views(prims@)[k].alive);
                        let g = groups@.assignment[k];
                        assert(roots@[groups@.assignment[k] as int] == rv.owner[k]);
                        assert(roots@[g as int] == k as u32);
                    }
                }
                assert forall|g: int| 0 <= g < roots@.len() implies ps[#[trigger] roots@[g] as int].alive == live@[g] by {
                    assert(rv.is_root(roots@[g]));
                }
                assert forall|g: int| 0 <= g < roots@.len() implies (#[trigger] roots@[g]) < ps.len() by {
                    assert(rv.is_root(roots@[g]));
                }
                assert(roots@.no_duplicates()) by {
                    assert forall|g: int, h: int| 0 <= g < roots@.len() && 0 <= h < roots@.len() && g != h implies roots@[g]
                        != roots@[h] by {
                        if g < h {
                            assert(roots@[g] != roots@[h]);
                        } else {
                            assert(roots@[h] != roots@[g]);
                        }
                    }
                }
                lemma_live_count_listed(ps, roots@, live@);
            }
            assert forall|g: int| 0 <= g < roots@.len() implies (#[trigger] roots@[g]) < prims@.len() by {
                assert(rv.is_root(roots@[g]));
            }
        }
        let ghost started = count_true(live@) as int;
        SplitPass {
            groups,
            roots,
            live,
            started: Ghost(started),
            tried,
            splits_done: 0,
            max_splits,
            mode,
            debug,
            picked: None,
        }
    }

    /// The group to try next: the one with the greatest score above one among
    /// those that are eligible, else the first that diagnostics ask for.
    /// `None` ends the pass.
    pub fn pick(&mut self, eligible: &Vec<bool>, scores: &Vec<Scalar>) -> (pick: Option<Pick>)
        requires
            old(self).wf(),
            eligible@.len() == old(self)@.groups.groups.len(),
            scores@.len() == old(self)@.groups.groups.len(),
        ensures
            final(self).wf(),
            final(self)@ == (SplitPassView { picked: pick, ..old(self)@ }),
            old(self)@.is_next(eligible@, scores@, pick),
    {
        let pick = self.to_try(eligible, scores);
        self.picked = pick;
        pick
    }

    fn to_try(&self, eligible: &Vec<bool>, scores: &Vec<Scalar>) -> (pick: Option<Pick>)
        requires
            self.wf(),
            eligible@.len() == self@.groups.groups.len(),
            scores@.len() == self@.groups.groups.len(),
        ensures
            self@.is_next(eligible@, scores@, pick),
    {
        if self.splits_done >= self.max_splits {
            return None;
        }
        let n: usize = self.groups.len();
        let ghost v = self@;
        let mut admitted: Vec<bool> = Vec::new();
        let mut i: usize = 0;
        while i < n
            invariant
                v == self@,
                self.wf(),
                n == v.groups.groups.len(),
                eligible@.len() == n,
                i <= n,
                admitted@ == v.admitted(eligible@).subrange(0, i as int),
            decreases n - i,
        {
            let ok: bool = self.is_open(i) && eligible[i];
            admitted.push(ok);
            assert(v.admitted(eligible@).subrange(0, i + 1) =~= v.admitted(eligible@).subrange(0, i as int).push(ok));
            i += 1;
        }
        assert(v.admitted(eligible@).subrange(0, i as int) =~= v.admitted(eligible@));
        if let Some(pid) = pick_worst(Scalar::one(), &admitted, scores) {
            assert(v.admitted(eligible@)[pid as int]);
            return Some(Pick { pid, debug_only: false, score: scores[pid] });
        }
        let target: u32 = match self.debug {
            Some(SplitDebugOpts { primitive: Some(target) }) => target,
            _ => {
                return None;
            },
        };
        let mut pid: usize = 0;
        while pid < n
            invariant
                v == self@,
                self.wf(),
                n == v.groups.groups.len(),
                scores@.len() == n,
                v.wanted() == Some(target),
                v.splits_done < v.max_splits,
                worst_index((Scalar { bits: 0x3f80_0000 }), v.admitted(eligible@), scores@) is None,
                pid <= n,
                forall|q: int| 0 <= q < pid ==> !(#[trigger] v.forced(q)),
            decreases n - pid,
        {
            if self.holds(pid, target) && self.is_open(pid) {
                assert(v.forced(pid as int));
                return Some(Pick { pid, debug_only: true, score: scores[pid] });
            }
            pid += 1;
        }
        None
    }

    fn is_open(&self, pid: usize) -> (b: bool)
        requires
            self.wf(),
            pid < self@.groups.groups.len(),
        ensures
            b == self@.open(pid as int),
    {
        self.live[pid] && !self.tried[pid] && self.groups.group(pid).len() >= 2
    }

    fn holds(&self, pid: usize, target: u32) -> (b: bool)
        requires
            self.wf(),
            pid < self@.groups.groups.len(),
        ensures
            b == self@.is_or_holds(pid as int, target),
    {
        let n: usize = self.groups.face_count();
        self.roots[pid] == target || ((target as usize) < n && self.groups.group_of(target) as usize == pid)
    }

    /// Whether diagnostics of this group are asked for.
    pub fn wants_debug(&self, pid: usize) -> (b: bool)
        requires
            self.wf(),
            pid < self@.groups.groups.len(),
        ensures
            b == self@.debugged(pid as int),
    {
        match self.debug {
            None => false,
            Some(d) => match d.primitive {
                None => true,
                Some(target) => self.holds(pid, target),
            },
        }
    }

    /// The primitive that the group is.
    pub fn root(&self, pid: usize) -> (r: u32)
        requires
            self.wf(),
            pid < self@.groups.groups.len(),
        ensures
            r == self@.roots[pid as int],
    {
        self.roots[pid]
    }

    /// The groups.
    pub fn groups(&self) -> (g: &Groups)
        requires
            self.wf(),
        ensures
            g@ == self@.groups,
            g.wf(),
    {
        &self.groups
    }

    /// How many splits have been made.
    pub fn splits_done(&self) -> (n: usize)
        ensures
            n == self@.splits_done,
    {
        self.splits_done
    }

    /// Nothing came of trying the group.
    pub fn give_up(&mut self, pid: usize)
        requires
            old(self).wf(),
            pid < old(self)@.groups.groups.len(),
        ensures
            final(self).wf(),
            final(self)@ == old(self)@.given_up(pid as int),
    {
        self.tried.set(pid, true);
        self.picked = None;
    }

    /// Splits the group that is being tried: it keeps the faces `a`, a new group
    /// gets the faces `b`. The split was measured and may be made.
    pub fn accept(&mut self, pid: usize, a: Vec<u32>, b: Vec<u32>, split: ScoredSplit)
        requires
            old(self).wf(),
            old(self)@.may_accept(pid as int, a@, b@, split),
        ensures
            final(self).wf(),
            final(self)@ == old(self)@.accepted(pid as int, a@, b@),
    {
        proof {
            law_split_adds_a_group(self@, pid as int, a@, b@);
        }
        let (root_a, root_b): (u32, u32) = (a[0], b[0]);
        self.groups.divide(pid, a, b);
        self.roots.set(pid, root_a);
        self.roots.push(root_b);
        self.live.push(true);
        self.tried.push(false);
        self.splits_done = self.splits_done + 1;
        self.picked = None;
    }

    /// Turns the groups back into primitives. What was not alive stays dead,
    /// and there is one more live primitive for every split.
    pub fn rebuild(
        &self,
        prims: &mut Vec<Primitive>,
        shapes: &Vec<Shape>,
        tris: &Vec<[u32; 3]>,
        support: &Vec<bool>,
        adj: &Adjacency,
    ) -> (rings: FaceRings)
        requires
            self.wf(),
            shapes@.len() == self@.groups.groups.len(),
            tris@.len() == self@.groups.faces(),
            support@.len() == tris@.len(),
            adj.len() == tris@.len(),
            adj.wf(),
            tris@.len() <= old(prims)@.len(),
            all_wf(old(prims)@),
            forall|i: int| 0 <= i < tris@.len() ==> (#[trigger] old(prims)@[i]).version < u64::MAX,
        ensures
            rings.wf(),
            rings@.len() == tris@.len(),
            rings@.is_grouping(self@.groups.groups),
            final(prims)@.len() == old(prims)@.len(),
            all_wf(final(prims)@),
            forall|i: int| tris@.len() <= i < old(prims)@.len() ==> final(prims)@[i] == old(prims)@[i],
            forall|i: int|
                0 <= i < tris@.len() && !rings@.is_root(i as u32) ==> (#[trigger] final(prims)@[i])@ == emptied(
                    old(prims)@[i]@,
                ),
            forall|g: int|
                0 <= g < self@.groups.groups.len() ==> regrown(
                    old(prims)@[(#[trigger] self@.groups.groups[g])[0] as int]@,
                    final(prims)@[self@.groups.groups[g][0] as int]@,
                    self@.groups.groups[g],
                    shapes@[g],
                    self@.live[g],
                ),
            forall|i: u32|
                i < tris@.len() ==> (Surface { tris: tris@, support: support@, adj: *adj }).mirrors(
                    (#[trigger] final(prims)@[i as int])@,
                    rings@,
                    i,
                ),
            self@.started == live_count(views(old(prims)@).subrange(0, tris@.len() as int)) ==> live_count(
                views(final(prims)@),
            ) == live_count(views(old(prims)@)) + self@.splits_done,
    {
        let ghost before = views(prims@);
        let rings = rebuild(prims, &self.groups, shapes, &self.live, tris, support, adj);
        proof {
            let after = views(prims@);
            let nf = tris@.len() as int;
            lemma_live_count_parts(before, nf);
            lemma_live_count_parts(after, nf);
            assert(after.subrange(nf, after.len() as int) =~= before.subrange(nf, before.len() as int));
        }
        rings
    }
}

} // verus!
