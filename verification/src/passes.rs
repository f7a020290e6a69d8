//! Which passes follow the merge, and in which order.

use crate::report::SplitPhase;
use crate::scalar::Scalar;
use vstd::prelude::*;

verus! {

/// Which passes are asked for.
#[derive(Clone, Copy, Debug, PartialEq, Eq, Structural)]
pub struct PassOptions {
    /// The rounds of rebalancing.
    pub rebalance: Option<usize>,
    pub cull_redundant: bool,
    pub cull_overlap: bool,
    /// The most splits.
    pub split_worst: Option<usize>,
    pub split_error_region: bool,
    pub refine_search: bool,
    /// The most repairs.
    pub repair_bad_slabs: Option<usize>,
    /// The primitive whose splits are to be reported.
    pub debug_primitive: Option<u32>,
    pub post_merge_budget: bool,
    pub shrink_high_error: bool,
    pub collision_simplify: bool,
    pub strip_thin_obbs: bool,
}

/// A pass.
#[derive(Clone, Copy, Debug, PartialEq, Eq, Structural)]
pub enum Pass {
    Rebalance(usize),
    CullRedundant,
    CullOverlap,
    /// At most so many splits.
    Split(SplitPhase, usize),
    Refine,
    /// At most so many repairs of slabs with two or three faces.
    RepairFewFaces(usize),
    /// At most so many repairs of slabs with one face.
    RepairOneFace(usize),
    /// The splits of this primitive are reported, unless they have been.
    DebugLive(u32),
    Compress,
    Shrink,
    Simplify,
    StripThin,
}

/// How far the passes have come.
#[derive(Clone, Copy, Debug, PartialEq, Eq, Structural)]
pub struct Progress {
    /// The next stage.
    pub stage: u8,
    pub splits_done: usize,
    /// The splits of the pass after refinement.
    pub post_splits: usize,
    pub slab_repairs_done: usize,
    pub post_budget_merges: usize,
}

/// There are so many stages.
pub const STAGES: u8 = 17;

/// What is left of a limit.
pub open spec fn left(max: usize, done: usize) -> int {
    if max > done {
        max - done
    } else {
        0
    }
}

/// The pass of a stage, if it is due.
pub open spec fn pass_at(o: PassOptions, p: Progress, stage: int) -> Option<Pass> {
    if stage == 0 {
        match o.rebalance {
            Some(n) => Some(Pass::Rebalance(n)),
            None => None,
        }
    } else if stage == 1 && o.cull_redundant {
        Some(Pass::CullRedundant)
    } else if stage == 2 && o.cull_overlap {
        Some(Pass::CullOverlap)
    } else if stage == 3 {
        match o.split_worst {
            Some(max) => Some(Pass::Split(SplitPhase::PreRefine, max)),
            None => None,
        }
    } else if stage == 4 && o.refine_search {
        Some(Pass::Refine)
    } else if stage == 5 {
        match o.split_worst {
            Some(max) => if o.split_error_region && left(max, p.splits_done) > 0 {
                Some(Pass::Split(SplitPhase::PostRefine, left(max, p.splits_done) as usize))
            } else {
                None
            },
            None => None,
        }
    } else if stage == 6 && o.refine_search && p.post_splits > 0 {
        Some(Pass::Refine)
    } else if stage == 7 {
        match o.repair_bad_slabs {
            Some(max) => Some(Pass::Split(SplitPhase::BadSlabRepair, max)),
            None => None,
        }
    } else if stage == 8 {
        match o.repair_bad_slabs {
            Some(max) => if left(max, p.slab_repairs_done) > 0 {
                Some(Pass::RepairFewFaces(left(max, p.slab_repairs_done) as usize))
            } else {
                None
            },
            None => None,
        }
    } else if stage == 9 {
        match o.repair_bad_slabs {
            Some(max) => if left(max, p.slab_repairs_done) > 0 {
                Some(Pass::RepairOneFace(left(max, p.slab_repairs_done) as usize))
            } else {
                None
            },
            None => None,
        }
    } else if stage == 10 && o.refine_search && p.slab_repairs_done > 0 {
        Some(Pass::Refine)
    } else if stage == 11 {
        match (o.debug_primitive, o.split_worst) {
            (Some(target), Some(_)) => Some(Pass::DebugLive(target)),
            _ => None,
        }
    } else if stage == 12 && o.post_merge_budget {
        Some(Pass::Compress)
    } else if stage == 13 && o.refine_search && p.post_budget_merges > 0 {
        Some(Pass::Refine)
    } else if stage == 14 && o.shrink_high_error {
        Some(Pass::Shrink)
    } else if stage == 15 && o.collision_simplify {
        Some(Pass::Simplify)
    } else if stage == 16 && o.strip_thin_obbs {
        Some(Pass::StripThin)
    } else {
        None
    }
}

/// The count that a pass came back with is taken note of.
pub open spec fn noted(p: Progress, stage: int, count: int) -> Progress {
    if stage == 3 {
        Progress { splits_done: count as usize, ..p }
    } else if stage == 5 {
        Progress { splits_done: (p.splits_done + count) as usize, post_splits: count as usize, ..p }
    } else if stage == 7 || stage == 8 || stage == 9 {
        Progress { slab_repairs_done: (p.slab_repairs_done + count) as usize, ..p }
    } else if stage == 12 {
        Progress { post_budget_merges: count as usize, ..p }
    } else {
        p
    }
}

fn remaining(max: usize, done: usize) -> (n: usize)
    ensures
        n == left(max, done),
{
    if max > done {
        max - done
    } else {
        0
    }
}

fn due(o: &PassOptions, p: &Progress, stage: u8) -> (pass: Option<Pass>)
    ensures
        pass == pass_at(*o, *p, stage as int),
{
    if stage == 0 {
        match o.rebalance {
            Some(n) => Some(Pass::Rebalance(n)),
            None => None,
        }
    } else if stage == 1 && o.cull_redundant {
        Some(Pass::CullRedundant)
    } else if stage == 2 && o.cull_overlap {
        Some(Pass::CullOverlap)
    } else if stage == 3 {
        match o.split_worst {
            Some(max) => Some(Pass::Split(SplitPhase::PreRefine, max)),
            None => None,
        }
    } else if stage == 4 && o.refine_search {
        Some(Pass::Refine)
    } else if stage == 5 {
        match o.split_worst {
            Some(max) => {
                let n: usize = remaining(max, p.splits_done);
                if o.split_error_region && n > 0 {
                    Some(Pass::Split(SplitPhase::PostRefine, n))
                } else {
                    None
                }
            },
            None => None,
        }
    } else if stage == 6 && o.refine_search && p.post_splits > 0 {
        Some(Pass::Refine)
    } else if stage == 7 {
        match o.repair_bad_slabs {
            Some(max) => Some(Pass::Split(SplitPhase::BadSlabRepair, max)),
            None => None,
        }
    } else if stage == 8 || stage == 9 {
        match o.repair_bad_slabs {
            Some(max) => {
                let n: usize = remaining(max, p.slab_repairs_done);
                if n == 0 {
                    None
                } else if stage == 8 {
                    Some(Pass::RepairFewFaces(n))
                } else {
                    Some(Pass::RepairOneFace(n))
                }
            },
            None => None,
        }
    } else if stage == 10 && o.refine_search && p.slab_repairs_done > 0 {
        Some(Pass::Refine)
    } else if stage == 11 {
        match (o.debug_primitive, o.split_worst) {
            (Some(target), Some(_)) => Some(Pass::DebugLive(target)),
            _ => None,
        }
    } else if stage == 12 && o.post_merge_budget {
        Some(Pass::Compress)
    } else if stage == 13 && o.refine_search && p.post_budget_merges > 0 {
        Some(Pass::Refine)
    } else if stage == 14 && o.shrink_high_error {
        Some(Pass::Shrink)
    } else if stage == 15 && o.collision_simplify {
        Some(Pass::Simplify)
    } else if stage == 16 && o.strip_thin_obbs {
        Some(Pass::StripThin)
    } else {
        None
    }
}

/// The passes after the merge.
pub struct Passes {
    pub options: PassOptions,
    pub progress: Progress,
}

impl Passes {
    pub fn new(options: PassOptions) -> (r: Self)
        ensures
            r.options == options,
            r.progress == (Progress {
                stage: 0,
                splits_done: 0,
                post_splits: 0,
                slab_repairs_done: 0,
                post_budget_merges: 0,
            }),
    {
        Passes {
            options,
            progress: Progress {
                stage: 0,
                splits_done: 0,
                post_splits: 0,
                slab_repairs_done: 0,
                post_budget_merges: 0,
            },
        }
    }

    /// The next pass that is due; `None` when all are over. Its count is to be
    /// reported before the next is asked for.
    pub fn next(&mut self) -> (pass: Option<Pass>)
        requires
            old(self).progress.stage <= STAGES,
        ensures
            final(self).options == old(self).options,
            ({
                let (o, p) = (old(self).options, old(self).progress);
                let s = final(self).progress.stage;
                &&& final(self).progress == (Progress { stage: s, ..p })
                &&& s <= STAGES
                &&& match pass {
                    Some(x) => {
                        &&& p.stage < s
                        &&& pass_at(o, p, s - 1) == Some(x)
                        &&& forall|k: int| p.stage <= k < s - 1 ==> #[trigger] pass_at(o, p, k) is None
                    },
                    None => s == STAGES && forall|k: int| p.stage <= k < STAGES ==> #[trigger] pass_at(o, p, k) is None,
                }
            }),
    {
        let ghost (o, p) = (self.options, self.progress);
        while self.progress.stage < STAGES
            invariant
                self.options == o,
                o == old(self).options,
                p == old(self).progress,
                self.progress == (Progress { stage: self.progress.stage, ..p }),
                p.stage <= self.progress.stage <= STAGES,
                forall|k: int| p.stage <= k < self.progress.stage ==> #[trigger] pass_at(o, p, k) is None,
            decreases STAGES - self.progress.stage,
        {
            let stage: u8 = self.progress.stage;
            let pass = due(&self.options, &self.progress, stage);
            assert(pass == pass_at(o, p, stage as int));
            self.progress.stage = stage + 1;
            if pass.is_some() {
                return pass;
            }
        }
        None
    }

    /// The pass given out last is over; it made so many changes.
    pub fn report(&mut self, count: usize)
        requires
            0 < old(self).progress.stage <= STAGES,
            old(self).progress.splits_done + count <= usize::MAX,
            old(self).progress.slab_repairs_done + count <= usize::MAX,
        ensures
            final(self).options == old(self).options,
            final(self).progress == noted(old(self).progress, old(self).progress.stage - 1, count as int),
    {
        let stage: u8 = self.progress.stage - 1;
        if stage == 3 {
            self.progress.splits_done = count;
        } else if stage == 5 {
            self.progress.splits_done = self.progress.splits_done + count;
            self.progress.post_splits = count;
        } else if stage == 7 || stage == 8 || stage == 9 {
            self.progress.slab_repairs_done = self.progress.slab_repairs_done + count;
        } else if stage == 12 {
            self.progress.post_budget_merges = count;
        }
    }
}

/// Splits and repairs never exceed their limits, where every pass keeps to the
/// number it was given.
pub proof fn law_limits_are_kept(o: PassOptions, p: Progress, stage: int, count: int)
    requires
        o.split_worst matches Some(max) ==> p.splits_done <= max,
        o.repair_bad_slabs matches Some(max) ==> p.slab_repairs_done <= max,
        stage == 3 ==> p.splits_done == 0,
        stage == 7 ==> p.slab_repairs_done == 0,
        0 <= count,
        match pass_at(o, p, stage) {
            Some(Pass::Split(_, n)) => count <= n,
            Some(Pass::RepairFewFaces(n)) => count <= n,
            Some(Pass::RepairOneFace(n)) => count <= n,
            Some(_) => true,
            None => count == 0,
        },
    ensures
        o.split_worst matches Some(max) ==> noted(p, stage, count).splits_done <= max,
        o.repair_bad_slabs matches Some(max) ==> noted(p, stage, count).slab_repairs_done <= max,
{
}

/// What needs distances to the mesh.
#[derive(Clone, Copy, Debug, PartialEq, Eq, Structural)]
pub struct DistanceUses {
    pub empty_space: bool,
    pub quality_beta: Scalar,
    pub shell_aware: bool,
    pub rebalance: bool,
    pub feasibility: bool,
    pub outside_space: bool,
    pub outside_fit_beta: Scalar,
    pub split_worst: bool,
    pub refine_search: bool,
    pub repair_bad_slabs: bool,
    pub post_merge_budget: bool,
    pub shrink_high_error: bool,
}

impl DistanceUses {
    pub open spec fn any(self) -> bool {
        let zero = Scalar { bits: 0 };
        ||| self.empty_space
        ||| zero.spec_lt(self.quality_beta)
        ||| self.shell_aware
        ||| self.rebalance
        ||| self.feasibility
        ||| self.outside_space
        ||| zero.spec_lt(self.outside_fit_beta)
        ||| self.split_worst
        ||| self.refine_search
        ||| self.repair_bad_slabs
        ||| self.post_merge_budget
        ||| self.shrink_high_error
    }

    /// Whether a tree over the mesh is needed.
    pub fn needs_tree(&self) -> (b: bool)
        ensures
            b == self.any(),
    {
        self.empty_space || self.quality_beta.gt(Scalar::zero()) || self.shell_aware || self.rebalance
            || self.feasibility || self.outside_space || self.outside_fit_beta.gt(Scalar::zero()) || self.split_worst
            || self.refine_search || self.repair_bad_slabs || self.post_merge_budget || self.shrink_high_error
    }
}

/// Repairing slabs is reason enough for a tree, whatever else is asked for, and
/// the passes up to the shrinking, the repairs among them, do not depend on
/// whether boxes are to be shrunk.
pub proof fn law_repair_stands_alone(u: DistanceUses, o: PassOptions, p: Progress, stage: int, shrink: bool)
    ensures
        u.repair_bad_slabs ==> u.any(),
        stage != 14 ==> pass_at(PassOptions { shrink_high_error: shrink, ..o }, p, stage) == pass_at(o, p, stage),
        o.repair_bad_slabs matches Some(max) ==> pass_at(o, p, 7) == Some(Pass::Split(SplitPhase::BadSlabRepair, max)),
{
}

/// What the passes from a stage on come to, whatever each of them does: `act`
/// is what a pass makes of the primitives, and the count it comes back with.
pub open spec fn played<W>(o: PassOptions, p: Progress, stage: int, w: W, act: spec_fn(Pass, W) -> (W, int)) -> (
    Progress,
    W,
)
    decreases STAGES - stage,
{
    if stage >= STAGES {
        (p, w)
    } else {
        match pass_at(o, p, stage) {
            Some(pass) => {
                let (after, count) = act(pass, w);
                played(o, noted(p, stage, count), stage + 1, after, act)
            },
            None => played(o, p, stage + 1, w, act),
        }
    }
}

/// A shrinking that shrinks nothing changes nothing: the passes make the same
/// repairs and leave the same primitives as without it.
pub proof fn law_idle_shrinking_changes_nothing<W>(
    o: PassOptions,
    p: Progress,
    stage: int,
    w: W,
    act: spec_fn(Pass, W) -> (W, int),
)
    requires
        forall|x: W| (#[trigger] act(Pass::Shrink, x)).0 == x,
    ensures
        played(PassOptions { shrink_high_error: true, ..o }, p, stage, w, act) == played(
            PassOptions { shrink_high_error: false, ..o },
            p,
            stage,
            w,
            act,
        ),
    decreases STAGES - stage,
{
    let (with, without) = (
        PassOptions { shrink_high_error: true, ..o },
        PassOptions { shrink_high_error: false, ..o },
    );
    if stage < STAGES {
        if stage == 14 {
            let (after, count) = act(Pass::Shrink, w);
            assert(noted(p, stage, count) == p);
            law_idle_shrinking_changes_nothing(o, p, stage + 1, w, act);
        } else {
            assert(pass_at(with, p, stage) == pass_at(without, p, stage));
            match pass_at(with, p, stage) {
                Some(pass) => {
                    let (after, count) = act(pass, w);
                    law_idle_shrinking_changes_nothing(o, noted(p, stage, count), stage + 1, after, act);
                },
                None => {
                    law_idle_shrinking_changes_nothing(o, p, stage + 1, w, act);
                },
            }
        }
    }
}

} // verus!
