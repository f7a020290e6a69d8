//! What merging does, step by step.
//!
//! How offers, refusals and merges bear on each other: what a merge outdates,
//! what a refusal is remembered for, and when merging goes on.

use crate::budget::{BudgetView, fits_budget};
use crate::faces::RingsView;
use crate::merge::{Measure, Measured, MergeSettings, MergeView, Offer, Step, cheapest, exceeds, is_stale, within};
use crate::primitive::Fit;
use crate::queue::PqEntry;
use crate::scalar::Scalar;
use vstd::prelude::*;

verus! {

/// A merge outdates what is queued with either of the two, and nothing else.
pub proof fn law_merge_outdates_both(v: MergeView, a: u32, b: u32, fit: Fit, m: Measured, e: PqEntry)
    requires
        v.is_live_pair(a, b),
        e.a < v.prims.len(),
        e.b < v.prims.len(),
        v.prims[e.a as int].alive,
        v.prims[e.b as int].alive,
        v.prims[e.a as int].version == e.va,
        v.prims[e.b as int].version == e.vb,
    ensures
        !is_stale(v.prims, e),
        is_stale(v.committed(a, b, fit, m).prims, e) <==> e.a == a || e.a == b || e.b == a || e.b == b,
{
}

/// What is queued with a dead primitive, or with one that has been merged
/// since, is outdated.
pub proof fn law_outdated_means_dead_or_merged_since(v: MergeView, e: PqEntry)
    ensures
        !v.prims[e.a as int].alive ==> is_stale(v.prims, e),
        !v.prims[e.b as int].alive ==> is_stale(v.prims, e),
        e.va < v.prims[e.a as int].version ==> is_stale(v.prims, e),
        e.vb < v.prims[e.b as int].version ==> is_stale(v.prims, e),
{
}

/// An offer is queued as it was made, for the two primitives as they are.
pub proof fn law_offer_is_queued_as_made(v: MergeView, o: Offer)
    requires
        v.is_live_pair(o.a, o.b),
        0 <= v.prims[o.a as int].version <= u64::MAX,
        0 <= v.prims[o.b as int].version <= u64::MAX,
    ensures
        !is_stale(v.prims, v.entry(o)),
        v.entry(o).cost == o.cost,
        v.entry(o).a == o.a,
        v.entry(o).b == o.b,
        v.entry(o).prim == o.prim,
        v.entry(o).volume == o.volume,
        v.entry(o).weighted_volume == o.weighted_volume,
{
}

/// A pair that was refused for bridging open space is remembered either way
/// round, as long as neither of the two is merged; no other pair is.
pub proof fn law_refused_pair_is_remembered(v: MergeView, e: PqEntry, f: PqEntry)
    requires
        v.settings.max_empty is Some,
        e.a != e.b,
        f.a != f.b,
    ensures
        v.refusing(e, Measure::OpenSpace).remembers(f) <==> v.remembers(f) || (e.a == f.a && e.va == f.va && e.b == f.b
            && e.vb == f.vb) || (e.a == f.b && e.va == f.vb && e.b == f.a && e.vb == f.va),
        v.refusing(e, Measure::Distance).remembers(f) == v.remembers(f),
        v.refusing(e, Measure::Outside).remembers(f) == v.remembers(f),
{
}

/// Without a limit on open space nothing is remembered.
pub proof fn law_nothing_remembered_without_limit(v: MergeView, e: PqEntry)
    requires
        v.settings.max_empty is None,
    ensures
        !v.remembers(e),
{
}

/// A refusal counts one refusal of its own kind, and changes neither the
/// primitives nor their faces nor what is queued.
pub proof fn law_refusal_counts_its_kind(v: MergeView, e: PqEntry, what: Measure)
    ensures
        ({
            let w = v.refusing(e, what);
            &&& w.surface == v.surface
            &&& w.settings == v.settings
            &&& w.prims == v.prims
            &&& w.rings == v.rings
            &&& w.queue == v.queue
            &&& w.measured == v.measured
            &&& w.merges_done == v.merges_done
            &&& w.merges_skipped_stale == v.merges_skipped_stale
            &&& w.all_pairs_used == v.all_pairs_used
            &&& w.merges_rejected_empty - v.merges_rejected_empty == (if what == Measure::OpenSpace {
                1int
            } else {
                0int
            })
            &&& w.merges_rejected_feasibility - v.merges_rejected_feasibility == (if what == Measure::Distance {
                1int
            } else {
                0int
            })
            &&& w.merges_rejected_outside - v.merges_rejected_outside == (if what == Measure::Outside {
                1int
            } else {
                0int
            })
        }),
{
}

/// Each measure has its own limit.
pub proof fn law_each_measure_has_its_limit(s: MergeSettings)
    ensures
        s.limit(Measure::OpenSpace) == s.max_empty,
        s.limit(Measure::Distance) == s.max_distance,
        s.limit(Measure::Outside) == s.max_outside,
{
}

/// What was measured is found again under its own name, and the rest is as it
/// was.
pub proof fn law_measure_is_kept(m: Measured, x: Scalar)
    ensures
        m.spec_with(Measure::OpenSpace, x).open_space == Some(x),
        m.spec_with(Measure::OpenSpace, x).distance == m.distance,
        m.spec_with(Measure::OpenSpace, x).outside == m.outside,
        m.spec_with(Measure::Distance, x).open_space == m.open_space,
        m.spec_with(Measure::Distance, x).distance == Some(x),
        m.spec_with(Measure::Distance, x).outside == m.outside,
        m.spec_with(Measure::Outside, x).open_space == m.open_space,
        m.spec_with(Measure::Outside, x).distance == m.distance,
        m.spec_with(Measure::Outside, x).outside == Some(x),
        Measured::spec_nothing().open_space is None,
        Measured::spec_nothing().distance is None,
        Measured::spec_nothing().outside is None,
{
}

/// A merge is asked for each limited measure once, open space first and what
/// stands outside last, and for nothing that is not limited.
pub proof fn law_what_is_limited_is_measured(s: MergeSettings, m: Measured, what: Measure, x: Scalar)
    ensures
        s.lacks(m) is None <==> (s.max_empty is Some ==> m.open_space is Some) && (s.max_distance is Some ==> m.distance is Some)
            && (s.max_outside is Some ==> m.outside is Some),
        s.lacks(m) == Some(what) ==> s.limit(what) is Some,
        s.lacks(m.spec_with(what, x)) != Some(what),
        s.lacks(m) == Some(Measure::OpenSpace) ==> m.open_space is None,
        s.lacks(m) == Some(Measure::Distance) ==> m.distance is None && (s.max_empty is Some ==> m.open_space is Some),
        s.lacks(m) == Some(Measure::Outside) ==> m.outside is None && (s.max_empty is Some ==> m.open_space is Some) && (
        s.max_distance is Some ==> m.distance is Some),
{
}

/// A measure is refused exactly where it is above its limit, and a merge is
/// allowed where everything limited was measured and nothing was refused.
pub proof fn law_allowed_means_nothing_refused(s: MergeSettings, m: Measured, x: Scalar, max: Scalar)
    ensures
        exceeds(x, Some(max)) <==> max.spec_lt(x),
        !exceeds(x, None),
        within(Some(x), s.max_empty) <==> !exceeds(x, s.max_empty),
        s.allows(m) ==> s.lacks(m) is None,
        s.lacks(m) is None ==> (s.allows(m) <==> (s.max_empty is Some ==> !exceeds(m.open_space->0, s.max_empty)) && (
        s.max_distance is Some ==> !exceeds(m.distance->0, s.max_distance)) && (s.max_outside is Some ==> !exceeds(
            m.outside->0,
            s.max_outside,
        ))),
{
}

/// Merging goes on until the target is met, as long as something is queued or
/// pairs were not offered yet: near ones where nearness is asked for, else all,
/// unless open space is limited.
pub proof fn law_merging_goes_on(v: MergeView, step: Step, w: MergeView)
    requires
        v.steps_to(step, w),
    ensures
        v.live() <= v.settings.target ==> step is Done,
        v.live() > v.settings.target && v.queue.len() > 0 ==> step is Stale || step is Remembered || step is Candidate,
        v.live() > v.settings.target && v.queue.len() == 0 && v.all_pairs_used ==> step is Done,
        v.live() > v.settings.target && v.queue.len() == 0 && !v.all_pairs_used && v.settings.proximity ==> step is PairNearby,
        v.live() > v.settings.target && v.queue.len() == 0 && !v.all_pairs_used && !v.settings.proximity
            && v.settings.max_empty is None ==> step is PairAll,
        v.live() > v.settings.target && v.queue.len() == 0 && !v.all_pairs_used && !v.settings.proximity
            && v.settings.max_empty is Some ==> step is Done,
{
    if v.queue.len() == 0 {
        assert forall|e: PqEntry| !(#[trigger] v.queue.contains(e)) by {
            if v.queue.contains(e) {
                assert(v.queue.remove(e).len() == v.queue.len() - 1);
            }
        }
    }
}

/// What is taken from the queue is the cheapest there is. It is tried where
/// both primitives are as they were when it was offered and the pair was not
/// refused; it is counted where not. Nothing else changes.
pub proof fn law_cheapest_is_taken(v: MergeView, step: Step, w: MergeView, e: PqEntry, f: PqEntry)
    requires
        v.steps_to(step, w),
        step == Step::Stale(e) || step == Step::Remembered(e) || step == Step::Candidate(e),
    ensures
        v.queue.contains(e),
        v.queue.contains(f) ==> e.cost.spec_key() <= f.cost.spec_key(),
        w.queue == v.queue.remove(e),
        w.surface == v.surface && w.settings == v.settings && w.prims == v.prims && w.rings == v.rings,
        w.refused == v.refused && w.measured == v.measured && w.merges_done == v.merges_done,
        w.merges_rejected_feasibility == v.merges_rejected_feasibility,
        w.merges_rejected_outside == v.merges_rejected_outside,
        w.all_pairs_used == v.all_pairs_used,
        step is Stale <==> !(v.prims[e.a as int].alive && v.prims[e.b as int].alive && v.prims[e.a as int].version == e.va
            && v.prims[e.b as int].version == e.vb),
        step is Candidate ==> !v.remembers(e),
        w.merges_skipped_stale - v.merges_skipped_stale == (if step is Stale {
            1int
        } else {
            0int
        }),
        w.merges_rejected_empty - v.merges_rejected_empty == (if step is Remembered {
            1int
        } else {
            0int
        }),
{
    assert(cheapest(v.queue, e));
}

/// A merge is counted, remembers what was measured of it, gives the faces of
/// both to the one that is left, and changes nothing else.
pub proof fn law_merge_by_field(v: MergeView, a: u32, b: u32, fit: Fit, m: Measured, i: int)
    requires
        v.inv(),
        v.is_live_pair(a, b),
    ensures
        ({
            let w = v.committed(a, b, fit, m);
            &&& w.merges_done == v.merges_done + 1
            &&& w.measured[a as int] == m
            &&& 0 <= i < v.measured.len() && i != a ==> w.measured[i] == v.measured[i]
            &&& w.surface == v.surface
            &&& w.settings == v.settings
            &&& w.queue == v.queue
            &&& w.refused == v.refused
            &&& w.merges_skipped_stale == v.merges_skipped_stale
            &&& w.merges_rejected_empty == v.merges_rejected_empty
            &&& w.merges_rejected_feasibility == v.merges_rejected_feasibility
            &&& w.merges_rejected_outside == v.merges_rejected_outside
            &&& w.all_pairs_used == v.all_pairs_used
            &&& w.rings == v.rings.spliced(a, b)
        }),
{
}

/// Splicing gives every face of the second to the first, in one ring that
/// starts as that of the first; the second is left with none, and nobody else
/// gains or loses a face.
pub proof fn law_splicing_joins_rings(v: RingsView, a: u32, b: u32, f: u32, p: u32)
    requires
        v.consistent(),
        a != b,
        v.is_root(a),
        v.is_root(b),
    ensures
        ({
            let w = v.spliced(a, b);
            &&& w.ring[a as int].contains(f) <==> v.ring[a as int].contains(f) || v.ring[b as int].contains(f)
            &&& w.ring[a as int].len() == v.ring[a as int].len() + v.ring[b as int].len()
            &&& w.ring[a as int][0] == v.ring[a as int][0]
            &&& w.ring[b as int].len() == 0
            &&& p < v.ring.len() && p != a && p != b ==> w.ring[p as int] == v.ring[p as int]
            &&& f < v.owner.len() && v.owner[f as int] == b ==> w.owner[f as int] == a
            &&& f < v.owner.len() && v.owner[f as int] != b ==> w.owner[f as int] == v.owner[f as int]
        }),
{
    let (ra, rb) = (v.ring[a as int], v.ring[b as int]);
    let r = v.spliced(a, b).ring[a as int];
    let n = rb.len() as int;
    if ra.contains(f) {
        let i = choose|i: int| 0 <= i < ra.len() && ra[i] == f;
        if i == 0 {
            assert(r[0] == f);
        } else {
            assert(r[n + i] == f);
        }
    }
    if rb.contains(f) {
        let i = choose|i: int| 0 <= i < rb.len() && rb[i] == f;
        if i == 0 {
            assert(r[n] == f);
        } else {
            assert(r[i] == f);
        }
    }
    if r.contains(f) {
        let k = choose|k: int| 0 <= k < r.len() && r[k] == f;
        if k == 0 {
            assert(ra[0] == f);
        } else if k < n {
            assert(rb[k] == f);
        } else if k == n {
            assert(rb[0] == f);
        } else {
            assert(ra[k - n] == f);
        }
    }
}

/// A merge down to the budget gives the faces of both to the one that is left
/// and measures it anew; the rest keeps its faces and its measures.
pub proof fn law_budget_merge_by_field(
    v: BudgetView,
    nf: nat,
    a: u32,
    b: u32,
    fit: Fit,
    score: Scalar,
    reverse: Scalar,
    i: int,
    f: u32,
)
    requires
        v.inv(nf),
        v.is_live_pair(a, b),
    ensures
        ({
            let w = v.committed(a, b, fit, score, reverse);
            &&& w.accepted == v.accepted + 1
            &&& w.queue == v.queue
            &&& w.target == v.target
            &&& w.threshold == v.threshold
            &&& w.before == v.before
            &&& w.measured[a as int] == Some((score, reverse))
            &&& w.faces[a as int].contains(f) <==> v.faces[a as int].contains(f) || v.faces[b as int].contains(f)
            &&& w.faces[a as int].len() == v.faces[a as int].len() + v.faces[b as int].len()
            &&& w.faces[b as int].len() == 0
            &&& 0 <= i < v.prims.len() && i != a ==> w.measured[i] == v.measured[i]
            &&& 0 <= i < v.prims.len() && i != a && i != b ==> w.faces[i] == v.faces[i]
        }),
{
    let (x, y) = (v.faces[a as int], v.faces[b as int]);
    if x.contains(f) {
        let k = choose|k: int| 0 <= k < x.len() && x[k] == f;
        assert((x + y)[k] == f);
    }
    if y.contains(f) {
        let k = choose|k: int| 0 <= k < y.len() && y[k] == f;
        assert((x + y)[x.len() + k] == f);
    }
}

/// A merge fits the budget where its score is at most one and its reverse error
/// at most the threshold. What fits still fits with less of either, or with a
/// higher threshold.
pub proof fn law_budget_limits(score: Scalar, reverse: Scalar, threshold: Scalar, less: Scalar, fewer: Scalar, more: Scalar)
    ensures
        (Scalar { bits: 0x3f80_0000 }).spec_lt(score) ==> !fits_budget(score, reverse, threshold),
        threshold.spec_lt(reverse) ==> !fits_budget(score, reverse, threshold),
        score.spec_le(Scalar { bits: 0x3f80_0000 }) && reverse.spec_le(threshold) ==> fits_budget(
            score,
            reverse,
            threshold,
        ),
        fits_budget(score, reverse, threshold) && less.spec_le(score) && fewer.spec_le(reverse) && threshold.spec_le(more)
            ==> fits_budget(less, fewer, more),
{
}

/// Splicing swaps what follows the first faces of two rings: behind the first
/// face of the one come the others of the second ring, then its first, then
/// the others of the one, each in its order.
pub proof fn law_splicing_swaps_what_follows(v: RingsView, a: u32, b: u32, k: int)
    requires
        v.consistent(),
        a != b,
        v.is_root(a),
        v.is_root(b),
    ensures
        ({
            let (ra, rb) = (v.ring[a as int], v.ring[b as int]);
            let r = v.spliced(a, b).ring[a as int];
            let n = rb.len() as int;
            &&& r.len() == ra.len() + rb.len()
            &&& r[0] == a
            &&& r[n] == b
            &&& 1 <= k < rb.len() ==> r[k] == rb[k]
            &&& 1 <= k < ra.len() ==> r[n + k] == ra[k]
        }),
{
}

} // verus!
