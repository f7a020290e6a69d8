//! What whole runs of passes do.
//!
//! A run goes through the passes in order. What each pass changes, and how much
//! it reports, is left open: what is said here holds of every outcome.

use crate::passes::{DistanceUses, Pass, PassOptions, Progress, STAGES, noted, pass_at, played};
use crate::report::SplitPhase;
use crate::scalar::Scalar;
use vstd::prelude::*;

verus! {

/// The passes of a run from a stage on, each with what it reported.
pub open spec fn given_out<W>(o: PassOptions, p: Progress, stage: int, w: W, act: spec_fn(Pass, W) -> (W, int)) -> Seq<
    (Pass, int),
>
    decreases STAGES - stage,
{
    if stage >= STAGES {
        Seq::empty()
    } else {
        match pass_at(o, p, stage) {
            Some(pass) => {
                let (after, count) = act(pass, w);
                seq![(pass, count)] + given_out(o, noted(p, stage, count), stage + 1, after, act)
            },
            None => given_out(o, p, stage + 1, w, act),
        }
    }
}

/// Nothing has been done yet.
pub open spec fn fresh() -> Progress {
    Progress { stage: 0, splits_done: 0, post_splits: 0, slab_repairs_done: 0, post_budget_merges: 0 }
}

/// All the passes of a run.
pub open spec fn run_of<W>(o: PassOptions, w: W, act: spec_fn(Pass, W) -> (W, int)) -> Seq<(Pass, int)> {
    given_out(o, fresh(), 0, w, act)
}

/// The pass is one of those given out.
pub open spec fn runs(events: Seq<(Pass, int)>, pass: Pass) -> bool {
    exists|i: int| 0 <= i < events.len() && (#[trigger] events[i]).0 == pass
}

/// No pass reports less than nothing or more than it was allowed.
pub open spec fn keeps_to_limits<W>(act: spec_fn(Pass, W) -> (W, int)) -> bool {
    forall|pass: Pass, w: W|
        0 <= (#[trigger] act(pass, w)).1 <= match pass {
            Pass::Split(_, n) => n,
            Pass::RepairFewFaces(n) => n,
            Pass::RepairOneFace(n) => n,
            _ => usize::MAX,
        }
}

proof fn lemma_runs_one_of(o: PassOptions, p: Progress, stage: int, e: (Pass, int), rest: Seq<(Pass, int)>, pass: Pass)
    ensures
        runs(seq![e] + rest, pass) <==> e.0 == pass || runs(rest, pass),
{
    let all = seq![e] + rest;
    if e.0 == pass {
        assert(all[0].0 == pass);
    }
    if runs(rest, pass) {
        let i = choose|i: int| 0 <= i < rest.len() && (#[trigger] rest[i]).0 == pass;
        assert(all[i + 1].0 == pass);
    }
    if runs(all, pass) {
        let i = choose|i: int| 0 <= i < all.len() && (#[trigger] all[i]).0 == pass;
        if i > 0 {
            assert(rest[i - 1].0 == pass);
        }
    }
}

/// What is given out was due at some stage.
proof fn lemma_was_due<W>(o: PassOptions, p: Progress, stage: int, w: W, act: spec_fn(Pass, W) -> (W, int), pass: Pass)
    requires
        0 <= stage <= STAGES,
        runs(given_out(o, p, stage, w, act), pass),
    ensures
        exists|q: Progress, k: int| stage <= k < STAGES && #[trigger] pass_at(o, q, k) == Some(pass),
    decreases STAGES - stage,
{
    if stage < STAGES {
        match pass_at(o, p, stage) {
            Some(x) => {
                let (after, count) = act(x, w);
                let rest = given_out(o, noted(p, stage, count), stage + 1, after, act);
                lemma_runs_one_of(o, p, stage, (x, count), rest, pass);
                if x == pass {
                    assert(pass_at(o, p, stage) == Some(pass));
                } else {
                    lemma_was_due(o, noted(p, stage, count), stage + 1, after, act, pass);
                }
            },
            None => {
                lemma_was_due(o, p, stage + 1, w, act, pass);
            },
        }
    }
}

/// What is due at a stage whatever was done is given out.
proof fn lemma_is_given<W>(
    o: PassOptions,
    p: Progress,
    stage: int,
    w: W,
    act: spec_fn(Pass, W) -> (W, int),
    pass: Pass,
    k: int,
)
    requires
        0 <= stage <= k < STAGES,
        forall|q: Progress| #[trigger] pass_at(o, q, k) == Some(pass),
    ensures
        runs(given_out(o, p, stage, w, act), pass),
    decreases STAGES - stage,
{
    match pass_at(o, p, stage) {
        Some(x) => {
            let (after, count) = act(x, w);
            let rest = given_out(o, noted(p, stage, count), stage + 1, after, act);
            lemma_runs_one_of(o, p, stage, (x, count), rest, pass);
            if stage < k {
                lemma_is_given(o, noted(p, stage, count), stage + 1, after, act, pass, k);
            }
        },
        None => {
            lemma_is_given(o, p, stage + 1, w, act, pass, k);
        },
    }
}

/// A pass runs where its option asks for it, whatever the other passes do, and
/// nowhere else.
pub proof fn law_passes_run_where_asked<W>(o: PassOptions, w: W, act: spec_fn(Pass, W) -> (W, int), n: usize, t: u32)
    ensures
        runs(run_of(o, w, act), Pass::Rebalance(n)) <==> o.rebalance == Some(n),
        runs(run_of(o, w, act), Pass::CullRedundant) <==> o.cull_redundant,
        runs(run_of(o, w, act), Pass::CullOverlap) <==> o.cull_overlap,
        runs(run_of(o, w, act), Pass::Split(SplitPhase::PreRefine, n)) <==> o.split_worst == Some(n),
        runs(run_of(o, w, act), Pass::Refine) <==> o.refine_search,
        runs(run_of(o, w, act), Pass::Split(SplitPhase::BadSlabRepair, n)) <==> o.repair_bad_slabs == Some(n),
        runs(run_of(o, w, act), Pass::DebugLive(t)) <==> o.debug_primitive == Some(t) && o.split_worst is Some,
        runs(run_of(o, w, act), Pass::Compress) <==> o.post_merge_budget,
        runs(run_of(o, w, act), Pass::Shrink) <==> o.shrink_high_error,
        runs(run_of(o, w, act), Pass::Simplify) <==> o.collision_simplify,
        runs(run_of(o, w, act), Pass::StripThin) <==> o.strip_thin_obbs,
        runs(run_of(o, w, act), Pass::Split(SplitPhase::PostRefine, n)) ==> o.split_error_region && (
        o.split_worst matches Some(max) && 0 < n <= max),
        !runs(run_of(o, w, act), Pass::Split(SplitPhase::DebugLive, n)),
        runs(run_of(o, w, act), Pass::RepairFewFaces(n)) ==> (o.repair_bad_slabs matches Some(max) && 0 < n <= max),
        runs(run_of(o, w, act), Pass::RepairOneFace(n)) ==> (o.repair_bad_slabs matches Some(max) && 0 < n <= max),
{
    let all = run_of(o, w, act);
    let asked = seq![
        Pass::Rebalance(n),
        Pass::CullRedundant,
        Pass::CullOverlap,
        Pass::Split(SplitPhase::PreRefine, n),
        Pass::Refine,
        Pass::Split(SplitPhase::BadSlabRepair, n),
        Pass::DebugLive(t),
        Pass::Compress,
        Pass::Shrink,
        Pass::Simplify,
        Pass::StripThin,
        Pass::Split(SplitPhase::PostRefine, n),
        Pass::RepairFewFaces(n),
        Pass::RepairOneFace(n),
        Pass::Split(SplitPhase::DebugLive, n),
    ];
    assert forall|i: int| 0 <= i < asked.len() && runs(all, #[trigger] asked[i]) implies exists|q: Progress, k: int|
        0 <= k < STAGES && #[trigger] pass_at(o, q, k) == Some(asked[i]) by {
        lemma_was_due(o, fresh(), 0, w, act, asked[i]);
    }
    assert(asked[0] == Pass::Rebalance(n) && asked[1] == Pass::CullRedundant && asked[2] == Pass::CullOverlap);
    assert(asked[3] == Pass::Split(SplitPhase::PreRefine, n) && asked[4] == Pass::Refine);
    assert(asked[5] == Pass::Split(SplitPhase::BadSlabRepair, n) && asked[6] == Pass::DebugLive(t));
    assert(asked[7] == Pass::Compress && asked[8] == Pass::Shrink && asked[9] == Pass::Simplify);
    assert(asked[10] == Pass::StripThin && asked[11] == Pass::Split(SplitPhase::PostRefine, n));
    assert(asked[12] == Pass::RepairFewFaces(n) && asked[13] == Pass::RepairOneFace(n));
    assert(asked[14] == Pass::Split(SplitPhase::DebugLive, n));
    if o.rebalance == Some(n) {
        lemma_is_given(o, fresh(), 0, w, act, Pass::Rebalance(n), 0);
    }
    if o.cull_redundant {
        lemma_is_given(o, fresh(), 0, w, act, Pass::CullRedundant, 1);
    }
    if o.cull_overlap {
        lemma_is_given(o, fresh(), 0, w, act, Pass::CullOverlap, 2);
    }
    if o.split_worst == Some(n) {
        lemma_is_given(o, fresh(), 0, w, act, Pass::Split(SplitPhase::PreRefine, n), 3);
    }
    if o.refine_search {
        lemma_is_given(o, fresh(), 0, w, act, Pass::Refine, 4);
    }
    if o.repair_bad_slabs == Some(n) {
        lemma_is_given(o, fresh(), 0, w, act, Pass::Split(SplitPhase::BadSlabRepair, n), 7);
    }
    if o.debug_primitive == Some(t) && o.split_worst is Some {
        lemma_is_given(o, fresh(), 0, w, act, Pass::DebugLive(t), 11);
    }
    if o.post_merge_budget {
        lemma_is_given(o, fresh(), 0, w, act, Pass::Compress, 12);
    }
    if o.shrink_high_error {
        lemma_is_given(o, fresh(), 0, w, act, Pass::Shrink, 14);
    }
    if o.collision_simplify {
        lemma_is_given(o, fresh(), 0, w, act, Pass::Simplify, 15);
    }
    if o.strip_thin_obbs {
        lemma_is_given(o, fresh(), 0, w, act, Pass::StripThin, 16);
    }
}

/// The place of a pass among the others; refinements have none of their own.
pub open spec fn place(pass: Pass) -> int {
    match pass {
        Pass::Rebalance(_) => 1,
        Pass::CullRedundant => 2,
        Pass::CullOverlap => 3,
        Pass::Split(SplitPhase::PreRefine, _) => 4,
        Pass::Split(SplitPhase::PostRefine, _) => 5,
        Pass::Split(SplitPhase::BadSlabRepair, _) => 6,
        Pass::RepairFewFaces(_) => 7,
        Pass::RepairOneFace(_) => 8,
        Pass::DebugLive(_) => 9,
        Pass::Compress => 10,
        Pass::Shrink => 11,
        Pass::Simplify => 12,
        Pass::StripThin => 13,
        _ => 0,
    }
}

/// Passes but refinements come in the order of their places.
pub open spec fn in_order(events: Seq<(Pass, int)>) -> bool {
    forall|i: int, j: int|
        0 <= i < j < events.len() && (#[trigger] events[i]).0 != Pass::Refine && (#[trigger] events[j]).0 != Pass::Refine
            ==> place(events[i].0) < place(events[j].0)
}

proof fn lemma_in_order<W>(o: PassOptions, p: Progress, stage: int, w: W, act: spec_fn(Pass, W) -> (W, int))
    requires
        0 <= stage <= STAGES,
    ensures
        in_order(given_out(o, p, stage, w, act)),
    decreases STAGES - stage,
{
    if stage < STAGES {
        match pass_at(o, p, stage) {
            Some(x) => {
                let (after, count) = act(x, w);
                let q = noted(p, stage, count);
                let rest = given_out(o, q, stage + 1, after, act);
                lemma_in_order(o, q, stage + 1, after, act);
                let all = seq![(x, count)] + rest;
                assert forall|i: int, j: int|
                    0 <= i < j < all.len() && (#[trigger] all[i]).0 != Pass::Refine && (#[trigger] all[j]).0 != Pass::Refine implies place(
                    all[i].0,
                ) < place(all[j].0) by {
                    assert(rest[j - 1] == all[j]);
                    if i > 0 {
                        assert(rest[i - 1] == all[i]);
                    } else {
                        assert(runs(rest, all[j].0));
                        lemma_was_due(o, q, stage + 1, after, act, all[j].0);
                    }
                }
            },
            None => {
                lemma_in_order(o, p, stage + 1, w, act);
            },
        }
    }
}

/// The passes of a run come in a fixed order, each at most once: rebalancing,
/// the two culls, splitting, splitting again, the three repairs, the report on
/// one primitive, merging down to the budget, shrinking, simplifying and
/// stripping. Refinements come between them.
pub proof fn law_passes_come_in_order<W>(o: PassOptions, w: W, act: spec_fn(Pass, W) -> (W, int))
    ensures
        in_order(run_of(o, w, act)),
{
    lemma_in_order(o, fresh(), 0, w, act);
}

/// The pass splits, repairs or merges primitives.
pub open spec fn reshapes(pass: Pass) -> bool {
    match pass {
        Pass::Split(_, _) => true,
        Pass::RepairFewFaces(_) => true,
        Pass::RepairOneFace(_) => true,
        Pass::Compress => true,
        _ => false,
    }
}

proof fn lemma_refines_later<W>(o: PassOptions, p: Progress, stage: int, w: W, act: spec_fn(Pass, W) -> (W, int))
    requires
        keeps_to_limits(act),
        o.refine_search,
        o.repair_bad_slabs matches Some(max) ==> p.slab_repairs_done <= max,
        stage <= 7 ==> p.slab_repairs_done == 0,
        0 <= stage <= STAGES,
        ({
            ||| stage <= 4
            ||| stage == 6 && p.post_splits > 0
            ||| stage <= 10 && p.slab_repairs_done > 0
            ||| stage == 13 && p.post_budget_merges > 0
        }),
    ensures
        runs(given_out(o, p, stage, w, act), Pass::Refine),
    decreases STAGES - stage,
{
    match pass_at(o, p, stage) {
        Some(x) => {
            let (after, count) = act(x, w);
            let q = noted(p, stage, count);
            let rest = given_out(o, q, stage + 1, after, act);
            lemma_runs_one_of(o, p, stage, (x, count), rest, Pass::Refine);
            if x != Pass::Refine {
                lemma_refines_later(o, q, stage + 1, after, act);
            }
        },
        None => {
            lemma_refines_later(o, p, stage + 1, w, act);
        },
    }
}

proof fn lemma_refined_after<W>(
    o: PassOptions,
    p: Progress,
    stage: int,
    w: W,
    act: spec_fn(Pass, W) -> (W, int),
    i: int,
)
    requires
        keeps_to_limits(act),
        o.refine_search,
        o.repair_bad_slabs matches Some(max) ==> p.slab_repairs_done <= max,
        stage <= 7 ==> p.slab_repairs_done == 0,
        stage <= 5 ==> p.post_splits == 0,
        stage <= 12 ==> p.post_budget_merges == 0,
        0 <= stage <= STAGES,
        0 <= i < given_out(o, p, stage, w, act).len(),
        reshapes(given_out(o, p, stage, w, act)[i].0),
        given_out(o, p, stage, w, act)[i].1 > 0,
    ensures
        exists|j: int| i < j < given_out(o, p, stage, w, act).len() && (#[trigger] given_out(o, p, stage, w, act)[j]).0 == Pass::Refine,
    decreases STAGES - stage,
{
    match pass_at(o, p, stage) {
        Some(x) => {
            let (after, count) = act(x, w);
            let q = noted(p, stage, count);
            let rest = given_out(o, q, stage + 1, after, act);
            let all = given_out(o, p, stage, w, act);
            assert(all == seq![(x, count)] + rest);
            if i > 0 {
                assert(all[i] == rest[i - 1]);
                lemma_refined_after(o, q, stage + 1, after, act, i - 1);
                let j = choose|j: int| i - 1 < j < rest.len() && (#[trigger] rest[j]).0 == Pass::Refine;
                assert(all[j + 1] == rest[j]);
            } else {
                assert(all[0] == (x, count));
                lemma_refines_later(o, q, stage + 1, after, act);
                let j = choose|j: int| 0 <= j < rest.len() && (#[trigger] rest[j]).0 == Pass::Refine;
                assert(all[j + 1] == rest[j]);
            }
        },
        None => {
            lemma_refined_after(o, p, stage + 1, w, act, i);
        },
    }
}

/// Where the search for better fits is on, what a pass splits, repairs or
/// merges is refined afterwards.
pub proof fn law_what_is_reshaped_is_refined<W>(o: PassOptions, w: W, act: spec_fn(Pass, W) -> (W, int), i: int)
    requires
        keeps_to_limits(act),
        o.refine_search,
        0 <= i < run_of(o, w, act).len(),
        reshapes(run_of(o, w, act)[i].0),
        run_of(o, w, act)[i].1 > 0,
    ensures
        exists|j: int| i < j < run_of(o, w, act).len() && (#[trigger] run_of(o, w, act)[j]).0 == Pass::Refine,
{
    lemma_refined_after(o, fresh(), 0, w, act, i);
}

/// Something was reshaped between two events of a run.
pub open spec fn reshaped_between(events: Seq<(Pass, int)>, i: int, j: int) -> bool {
    exists|k: int| i < k < j && reshapes((#[trigger] events[k]).0) && events[k].1 > 0
}

spec fn is_waiting(p: Progress, stage: int) -> bool {
    ||| stage == 6 && p.post_splits > 0
    ||| 8 <= stage <= 10 && p.slab_repairs_done > 0
    ||| stage == 13 && p.post_budget_merges > 0
}

spec fn counts_are_clear(o: PassOptions, p: Progress, stage: int) -> bool {
    &&& o.repair_bad_slabs matches Some(max) ==> p.slab_repairs_done <= max
    &&& o.repair_bad_slabs is None ==> p.slab_repairs_done == 0
    &&& stage <= 5 ==> p.post_splits == 0
    &&& stage <= 7 ==> p.slab_repairs_done == 0
    &&& stage <= 12 ==> p.post_budget_merges == 0
}

proof fn lemma_refined_for_a_reason<W>(
    o: PassOptions,
    p: Progress,
    stage: int,
    w: W,
    act: spec_fn(Pass, W) -> (W, int),
    j: int,
)
    requires
        keeps_to_limits(act),
        counts_are_clear(o, p, stage),
        5 <= stage <= STAGES,
        0 <= j < given_out(o, p, stage, w, act).len(),
        given_out(o, p, stage, w, act)[j].0 == Pass::Refine,
    ensures
        is_waiting(p, stage) || reshaped_between(given_out(o, p, stage, w, act), -1, j),
    decreases STAGES - stage,
{
    match pass_at(o, p, stage) {
        Some(x) => {
            let (after, count) = act(x, w);
            let q = noted(p, stage, count);
            let rest = given_out(o, q, stage + 1, after, act);
            let all = given_out(o, p, stage, w, act);
            assert(all == seq![(x, count)] + rest);
            assert(all[0] == (x, count));
            if j > 0 {
                assert(all[j] == rest[j - 1]);
                lemma_refined_for_a_reason(o, q, stage + 1, after, act, j - 1);
                if reshaped_between(rest, -1, j - 1) {
                    let k = choose|k: int| -1 < k < j - 1 && reshapes((#[trigger] rest[k]).0) && rest[k].1 > 0;
                    assert(all[k + 1] == rest[k]);
                }
            }
        },
        None => {
            lemma_refined_for_a_reason(o, p, stage + 1, w, act, j);
        },
    }
}

proof fn lemma_refined_again_for_a_reason<W>(
    o: PassOptions,
    p: Progress,
    stage: int,
    w: W,
    act: spec_fn(Pass, W) -> (W, int),
    i: int,
    j: int,
)
    requires
        keeps_to_limits(act),
        counts_are_clear(o, p, stage),
        0 <= stage <= STAGES,
        0 <= i < j < given_out(o, p, stage, w, act).len(),
        given_out(o, p, stage, w, act)[i].0 == Pass::Refine,
        given_out(o, p, stage, w, act)[j].0 == Pass::Refine,
    ensures
        reshaped_between(given_out(o, p, stage, w, act), i, j),
    decreases STAGES - stage,
{
    match pass_at(o, p, stage) {
        Some(x) => {
            let (after, count) = act(x, w);
            let q = noted(p, stage, count);
            let rest = given_out(o, q, stage + 1, after, act);
            let all = given_out(o, p, stage, w, act);
            assert(all == seq![(x, count)] + rest);
            assert(all[j] == rest[j - 1]);
            if i > 0 {
                assert(all[i] == rest[i - 1]);
                lemma_refined_again_for_a_reason(o, q, stage + 1, after, act, i - 1, j - 1);
            } else {
                assert(all[0] == (x, count));
                lemma_refined_for_a_reason(o, q, stage + 1, after, act, j - 1);
            }
            let k = choose|k: int| i - 1 < k < j - 1 && reshapes((#[trigger] rest[k]).0) && rest[k].1 > 0;
            assert(all[k + 1] == rest[k]);
        },
        None => {
            lemma_refined_again_for_a_reason(o, p, stage + 1, w, act, i, j);
        },
    }
}

/// Nothing is refined again without a reason: between two refinements a pass
/// has split, repaired or merged something.
pub proof fn law_refined_again_only_when_reshaped<W>(
    o: PassOptions,
    w: W,
    act: spec_fn(Pass, W) -> (W, int),
    i: int,
    j: int,
)
    requires
        keeps_to_limits(act),
        0 <= i < j < run_of(o, w, act).len(),
        run_of(o, w, act)[i].0 == Pass::Refine,
        run_of(o, w, act)[j].0 == Pass::Refine,
    ensures
        reshaped_between(run_of(o, w, act), i, j),
{
    lemma_refined_again_for_a_reason(o, fresh(), 0, w, act, i, j);
}

/// How much the passes of a run split, before and after refining.
pub open spec fn splits_in(events: Seq<(Pass, int)>) -> int
    decreases events.len(),
{
    if events.len() == 0 {
        0
    } else {
        splits_in(events.drop_first()) + match events[0].0 {
            Pass::Split(SplitPhase::PreRefine, _) => events[0].1,
            Pass::Split(SplitPhase::PostRefine, _) => events[0].1,
            _ => 0,
        }
    }
}

/// How much the passes of a run repair.
pub open spec fn repairs_in(events: Seq<(Pass, int)>) -> int
    decreases events.len(),
{
    if events.len() == 0 {
        0
    } else {
        repairs_in(events.drop_first()) + match events[0].0 {
            Pass::Split(SplitPhase::BadSlabRepair, _) => events[0].1,
            Pass::RepairFewFaces(_) => events[0].1,
            Pass::RepairOneFace(_) => events[0].1,
            _ => 0,
        }
    }
}

proof fn lemma_totals<W>(o: PassOptions, p: Progress, stage: int, w: W, act: spec_fn(Pass, W) -> (W, int))
    requires
        keeps_to_limits(act),
        o.split_worst matches Some(max) ==> p.splits_done <= max,
        o.repair_bad_slabs matches Some(max) ==> p.slab_repairs_done <= max,
        stage <= 3 ==> p.splits_done == 0,
        stage <= 7 ==> p.slab_repairs_done == 0,
        0 <= stage <= STAGES,
    ensures
        ({
            let events = given_out(o, p, stage, w, act);
            let end = played(o, p, stage, w, act).0;
            &&& end.splits_done == p.splits_done + splits_in(events)
            &&& end.slab_repairs_done == p.slab_repairs_done + repairs_in(events)
            &&& o.split_worst matches Some(max) ==> end.splits_done <= max
            &&& o.repair_bad_slabs matches Some(max) ==> end.slab_repairs_done <= max
        }),
    decreases STAGES - stage,
{
    if stage < STAGES {
        match pass_at(o, p, stage) {
            Some(x) => {
                let (after, count) = act(x, w);
                let q = noted(p, stage, count);
                let rest = given_out(o, q, stage + 1, after, act);
                let all = seq![(x, count)] + rest;
                assert(all.drop_first() =~= rest);
                assert(all[0] == (x, count));
                lemma_totals(o, q, stage + 1, after, act);
            },
            None => {
                lemma_totals(o, p, stage + 1, w, act);
            },
        }
    }
}

/// A run splits no more than the splitting is allowed in all, repairs no more
/// than the repairs are allowed in all, and ends with both counted.
pub proof fn law_run_keeps_to_its_limits<W>(o: PassOptions, w: W, act: spec_fn(Pass, W) -> (W, int))
    requires
        keeps_to_limits(act),
    ensures
        splits_in(run_of(o, w, act)) <= match o.split_worst {
            Some(max) => max,
            None => 0,
        },
        repairs_in(run_of(o, w, act)) <= match o.repair_bad_slabs {
            Some(max) => max,
            None => 0,
        },
        played(o, fresh(), 0, w, act).0.splits_done == splits_in(run_of(o, w, act)),
        played(o, fresh(), 0, w, act).0.slab_repairs_done == repairs_in(run_of(o, w, act)),
{
    lemma_totals(o, fresh(), 0, w, act);
    lemma_nothing_without_limit(o, fresh(), 0, w, act);
}

proof fn lemma_nothing_without_limit<W>(o: PassOptions, p: Progress, stage: int, w: W, act: spec_fn(Pass, W) -> (W, int))
    requires
        0 <= stage <= STAGES,
    ensures
        o.split_worst is None ==> splits_in(given_out(o, p, stage, w, act)) == 0,
        o.repair_bad_slabs is None ==> repairs_in(given_out(o, p, stage, w, act)) == 0,
    decreases STAGES - stage,
{
    if stage < STAGES {
        match pass_at(o, p, stage) {
            Some(x) => {
                let (after, count) = act(x, w);
                let q = noted(p, stage, count);
                let rest = given_out(o, q, stage + 1, after, act);
                let all = seq![(x, count)] + rest;
                assert(all.drop_first() =~= rest);
                assert(all[0] == (x, count));
                lemma_nothing_without_limit(o, q, stage + 1, after, act);
            },
            None => {
                lemma_nothing_without_limit(o, p, stage + 1, w, act);
            },
        }
    }
}

/// Splitting after the refinement is given exactly what the splitting before it
/// left, where there is something left; so is each repair after the first.
pub proof fn law_what_is_left_is_given_on(o: PassOptions, p: Progress, max: usize)
    ensures
        o.split_worst == Some(max) && o.split_error_region && p.splits_done < max ==> pass_at(o, p, 5) == Some(
            Pass::Split(SplitPhase::PostRefine, (max - p.splits_done) as usize),
        ),
        o.repair_bad_slabs == Some(max) && p.slab_repairs_done < max ==> pass_at(o, p, 8) == Some(
            Pass::RepairFewFaces((max - p.slab_repairs_done) as usize),
        ) && pass_at(o, p, 9) == Some(Pass::RepairOneFace((max - p.slab_repairs_done) as usize)),
{
}

/// The passes are given out in the order of the run: what is given next is the
/// first of the run from where the passes stand, and none is left out.
pub proof fn law_next_is_the_first_of_the_run<W>(
    o: PassOptions,
    p: Progress,
    s: int,
    w: W,
    act: spec_fn(Pass, W) -> (W, int),
)
    requires
        p.stage < s <= STAGES,
        forall|k: int| p.stage <= k < s - 1 ==> #[trigger] pass_at(o, p, k) is None,
    ensures
        given_out(o, p, p.stage as int, w, act) == (match pass_at(o, p, s - 1) {
            Some(x) => seq![(x, act(x, w).1)] + given_out(o, noted(p, s - 1, act(x, w).1), s, act(x, w).0, act),
            None => given_out(o, p, s, w, act),
        }),
{
    lemma_skip(o, p, p.stage as int, s - 1, w, act);
}

proof fn lemma_skip<W>(o: PassOptions, p: Progress, from: int, to: int, w: W, act: spec_fn(Pass, W) -> (W, int))
    requires
        0 <= from <= to < STAGES,
        forall|k: int| from <= k < to ==> #[trigger] pass_at(o, p, k) is None,
    ensures
        given_out(o, p, from, w, act) == given_out(o, p, to, w, act),
    decreases to - from,
{
    if from < to {
        assert(pass_at(o, p, from) is None);
        lemma_skip(o, p, from + 1, to, w, act);
    }
}

/// Distances to the surface are needed as soon as one use of them is asked for,
/// and not where none is: a weight asks for them where it is positive.
pub proof fn law_any_use_needs_the_tree(u: DistanceUses)
    ensures
        u.empty_space ==> u.any(),
        (Scalar { bits: 0 }).spec_lt(u.quality_beta) ==> u.any(),
        u.shell_aware ==> u.any(),
        u.rebalance ==> u.any(),
        u.feasibility ==> u.any(),
        u.outside_space ==> u.any(),
        (Scalar { bits: 0 }).spec_lt(u.outside_fit_beta) ==> u.any(),
        u.split_worst ==> u.any(),
        u.refine_search ==> u.any(),
        u.repair_bad_slabs ==> u.any(),
        u.post_merge_budget ==> u.any(),
        u.shrink_high_error ==> u.any(),
        !u.empty_space && !u.shell_aware && !u.rebalance && !u.feasibility && !u.outside_space && !u.split_worst
            && !u.refine_search && !u.repair_bad_slabs && !u.post_merge_budget && !u.shrink_high_error
            && !(Scalar { bits: 0 }).spec_lt(u.quality_beta) && !(Scalar { bits: 0 }).spec_lt(u.outside_fit_beta)
            ==> !u.any(),
{
}

} // verus!
