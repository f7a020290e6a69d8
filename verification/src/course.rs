//! Where a merge without limits ends: at its target.
//!
//! As long as every pair that may be merged has an entry in the queue that is
//! up to date, the queue cannot run dry too early. Each turn of the merge loop
//! keeps it so, where the pairs it asks for are priced and offered.

use crate::merge::{
    MergeSettings, MergeView, Measured, Offer, Step, is_stale, law_commit_keeps_invariant, law_neighbors_are_mutual,
};
use crate::primitive::{Fit, PrimView, face_total, live_count};
use crate::queue::PqEntry;
use crate::scalar::Scalar;
use crate::sets::is_set;
use vstd::multiset::Multiset;
use vstd::prelude::*;

verus! {

/// Nothing is refused: no pair costs too much, and nothing is measured.
pub open spec fn is_unlimited(s: MergeSettings) -> bool {
    &&& s.volume_threshold == (Scalar { bits: 0x7f80_0000 })
    &&& !s.proximity
    &&& s.max_empty is None
    &&& s.max_distance is None
    &&& s.max_outside is None
}

/// The entry is of the pair of `a` and `b`, whichever way round.
pub open spec fn joins(e: PqEntry, a: u32, b: u32) -> bool {
    (e.a == a && e.b == b) || (e.a == b && e.b == a)
}

/// The queue holds an entry of the pair that is up to date.
pub open spec fn is_queued(v: MergeView, a: u32, b: u32) -> bool {
    exists|e: PqEntry| #[trigger] v.queue.contains(e) && !is_stale(v.prims, e) && joins(e, a, b)
}

/// The pair may be merged: both are alive, and they are neighbours, or all
/// pairs are used.
pub open spec fn is_mergeable(v: MergeView, a: u32, b: u32) -> bool {
    v.is_live_pair(a, b) && (v.all_pairs_used || v.prims[a as int].neighbors.contains(b))
}

/// Every pair that may be merged is queued.
pub open spec fn covers(v: MergeView) -> bool {
    forall|a: u32, b: u32| #[trigger] is_mergeable(v, a, b) ==> is_queued(v, a, b)
}

/// The offer has been made, and taken where it does not cost too much.
pub open spec fn with_offer(v: MergeView, o: Offer) -> MergeView {
    if v.settings.volume_threshold.spec_lt(o.cost) {
        v
    } else {
        MergeView { queue: v.queue.insert(v.entry(o)), ..v }
    }
}

/// The offers have been made, one after the other.
pub open spec fn with_offers(v: MergeView, offers: Seq<Offer>) -> MergeView
    decreases offers.len(),
{
    if offers.len() == 0 {
        v
    } else {
        with_offer(with_offers(v, offers.drop_last()), offers.last())
    }
}

/// There is an offer for the pair.
pub open spec fn is_offered(offers: Seq<Offer>, a: u32, b: u32) -> bool {
    exists|i: int| 0 <= i < offers.len() && (#[trigger] offers[i]).a == a && offers[i].b == b
}

/// All offers are of live pairs.
pub open spec fn offers_live(v: MergeView, offers: Seq<Offer>) -> bool {
    forall|i: int| 0 <= i < offers.len() ==> v.is_live_pair((#[trigger] offers[i]).a, offers[i].b)
}

/// A queued pair that is out of date has been dropped.
pub open spec fn drops(v: MergeView, w: MergeView, e: PqEntry) -> bool {
    &&& v.queue.contains(e)
    &&& is_stale(v.prims, e)
    &&& w == (MergeView { queue: v.queue.remove(e), merges_skipped_stale: v.merges_skipped_stale + 1, ..v })
}

/// The primitive is to be priced against `n` after a merge.
pub open spec fn is_partner(v: MergeView, a: u32, n: u32) -> bool {
    if v.all_pairs_used {
        n < v.prims.len() && n != a && v.prims[n as int].alive
    } else {
        v.prims[a as int].neighbors.contains(n)
    }
}

/// A queued pair has been merged, and the grown primitive priced against all
/// its partners.
pub open spec fn merges(v: MergeView, w: MergeView, e: PqEntry, fit: Fit, m: Measured, offers: Seq<Offer>) -> bool {
    let grown = (MergeView { queue: v.queue.remove(e), ..v }).committed(e.a, e.b, fit, m);
    &&& v.queue.contains(e)
    &&& !is_stale(v.prims, e)
    &&& v.settings.allows(m)
    &&& offers_live(grown, offers)
    &&& forall|n: u32| #[trigger] is_partner(grown, e.a, n) ==> is_offered(offers, e.a, n)
    &&& w == with_offers(grown, offers)
}

/// The queue was empty, and all pairs of live primitives that are not
/// neighbours have been priced.
pub open spec fn pairs_all(v: MergeView, w: MergeView, offers: Seq<Offer>) -> bool {
    &&& v.queue.len() == 0
    &&& !v.all_pairs_used
    &&& offers_live(v, offers)
    &&& forall|a: u32, b: u32|
        a < b && #[trigger] v.is_live_pair(a, b) && !v.prims[a as int].neighbors.contains(b) ==> is_offered(offers, a, b)
    &&& w == (MergeView { all_pairs_used: true, ..with_offers(v, offers) })
}

/// One turn of the merge loop, which is made while there are more primitives
/// than the target.
pub open spec fn turns(v: MergeView, w: MergeView) -> bool {
    &&& v.live() > v.settings.target
    &&& {
        ||| exists|e: PqEntry| drops(v, w, e)
        ||| exists|e: PqEntry, fit: Fit, m: Measured, offers: Seq<Offer>| merges(v, w, e, fit, m, offers)
        ||| exists|offers: Seq<Offer>| pairs_all(v, w, offers)
    }
}

/// A merge before its first turn: every face a primitive, and every pair of
/// neighbours priced.
pub open spec fn starts(v: MergeView, offers: Seq<Offer>, w: MergeView) -> bool {
    &&& v.inv()
    &&& v.queue == Multiset::<PqEntry>::empty()
    &&& v.merges_done == 0
    &&& !v.all_pairs_used
    &&& offers_live(v, offers)
    &&& forall|a: u32, b: u32|
        a < b && #[trigger] v.is_live_pair(a, b) && v.prims[a as int].neighbors.contains(b) ==> is_offered(offers, a, b)
    &&& w == with_offers(v, offers)
}

/// The loop stops here: there are few enough primitives, or the queue is empty
/// and there are no more pairs to fill it.
pub open spec fn stops(v: MergeView) -> bool {
    v.live() <= v.settings.target || (v.queue.len() == 0 && v.all_pairs_used)
}

/// The lesser of the faces and the target.
pub open spec fn goal(v: MergeView) -> int {
    if v.surface.len() < v.settings.target {
        v.surface.len() as int
    } else {
        v.settings.target as int
    }
}

/// What every state of a merge without limits satisfies.
pub open spec fn on_course(v: MergeView) -> bool {
    &&& v.inv()
    &&& is_unlimited(v.settings)
    &&& covers(v)
    &&& goal(v) <= v.live()
}

/// Offers that are all taken: nothing but the queue changes, what was queued
/// stays, and what was offered is queued.
proof fn lemma_with_offers(v: MergeView, offers: Seq<Offer>)
    requires
        v.inv(),
        v.settings.volume_threshold == (Scalar { bits: 0x7f80_0000 }),
        offers_live(v, offers),
    ensures
        ({
            let w = with_offers(v, offers);
            &&& w == (MergeView { queue: w.queue, ..v })
            &&& w.inv()
            &&& forall|e: PqEntry| #[trigger] v.queue.contains(e) ==> w.queue.contains(e)
            &&& forall|i: int| 0 <= i < offers.len() ==> w.queue.contains(v.entry(#[trigger] offers[i]))
        }),
    decreases offers.len(),
{
    if offers.len() > 0 {
        let rest = offers.drop_last();
        assert forall|i: int| 0 <= i < rest.len() implies v.is_live_pair((#[trigger] rest[i]).a, rest[i].b) by {
            assert(v.is_live_pair(offers[i].a, offers[i].b));
        }
        lemma_with_offers(v, rest);
        let u = with_offers(v, rest);
        let o = offers.last();
        let w = with_offers(v, offers);
        assert(!v.settings.volume_threshold.spec_lt(o.cost));
        assert(v.is_live_pair(offers[offers.len() - 1].a, offers[offers.len() - 1].b));
        assert(w.queue == u.queue.insert(v.entry(o)));
        assert forall|e: PqEntry| #[trigger] w.queue.contains(e) implies e.a != e.b && e.a < w.prims.len() && e.b
            < w.prims.len() by {
            if e != v.entry(o) {
                assert(u.queue.contains(e));
            }
        }
        assert forall|i: int| 0 <= i < w.prims.len() && w.prims[i].alive && w.prims[i].face_count >= 2 implies w.settings.allows(
            #[trigger] w.measured[i],
        ) by {
            assert(u.settings.allows(u.measured[i]));
        }
        assert forall|i: int| 0 <= i < offers.len() implies w.queue.contains(v.entry(#[trigger] offers[i])) by {
            if i < rest.len() {
                assert(rest[i] == offers[i]);
                assert(u.queue.contains(v.entry(rest[i])));
            }
        }
    }
}

/// An entry just made is up to date.
proof fn lemma_entry_is_fresh(v: MergeView, o: Offer)
    requires
        v.inv(),
        v.is_live_pair(o.a, o.b),
    ensures
        !is_stale(v.prims, v.entry(o)),
{
    assert(0 <= v.prims[o.a as int].version <= v.merges_done);
    assert(0 <= v.prims[o.b as int].version <= v.merges_done);
}

/// A pair that was offered is queued.
proof fn lemma_offered_is_queued(v: MergeView, offers: Seq<Offer>, a: u32, b: u32)
    requires
        v.inv(),
        v.settings.volume_threshold == (Scalar { bits: 0x7f80_0000 }),
        offers_live(v, offers),
        is_offered(offers, a, b),
    ensures
        is_queued(with_offers(v, offers), a, b),
        is_queued(with_offers(v, offers), b, a),
{
    lemma_with_offers(v, offers);
    let w = with_offers(v, offers);
    let i = choose|i: int| 0 <= i < offers.len() && (#[trigger] offers[i]).a == a && offers[i].b == b;
    let e = v.entry(offers[i]);
    lemma_entry_is_fresh(v, offers[i]);
    assert(w.queue.contains(e) && !is_stale(w.prims, e) && joins(e, a, b) && joins(e, b, a));
}

/// What was queued before offers is queued after them.
proof fn lemma_queued_stays(v: MergeView, offers: Seq<Offer>, a: u32, b: u32)
    requires
        v.inv(),
        v.settings.volume_threshold == (Scalar { bits: 0x7f80_0000 }),
        offers_live(v, offers),
        is_queued(v, a, b),
    ensures
        is_queued(with_offers(v, offers), a, b),
{
    lemma_with_offers(v, offers);
    let w = with_offers(v, offers);
    let e = choose|e: PqEntry| #[trigger] v.queue.contains(e) && !is_stale(v.prims, e) && joins(e, a, b);
    assert(w.queue.contains(e) && !is_stale(w.prims, e) && joins(e, a, b));
}

/// The loop makes the turns: what is dropped as out of date is a turn, and so
/// is a candidate that is merged and priced against its partners, and so are
/// the pairs that are asked for when the queue is empty. Without limits there is
/// nothing else, and the loop ends where it stops.
pub proof fn law_steps_are_turns(v: MergeView, step: Step, w: MergeView, fit: Fit, m: Measured, offers: Seq<Offer>)
    requires
        is_unlimited(v.settings),
        v.steps_to(step, w),
    ensures
        match step {
            Step::Done => stops(v),
            Step::Stale(_) => turns(v, w),
            Step::Candidate(e) => {
                let grown = w.committed(e.a, e.b, fit, m);
                offers_live(grown, offers) && (forall|n: u32| #[trigger]
                    is_partner(grown, e.a, n) ==> is_offered(offers, e.a, n)) ==> turns(v, with_offers(grown, offers))
            },
            Step::PairAll => {
                offers_live(w, offers) && (forall|a: u32, b: u32|
                    a < b && #[trigger] w.is_live_pair(a, b) && !w.prims[a as int].neighbors.contains(b) ==> is_offered(
                        offers,
                        a,
                        b,
                    )) ==> turns(v, MergeView { all_pairs_used: true, ..with_offers(w, offers) })
            },
            Step::PairNearby => false,
            Step::Remembered(_) => false,
        },
{
    match step {
        Step::Stale(e) => {
            assert(drops(v, w, e));
        },
        Step::Candidate(e) => {
            let grown = w.committed(e.a, e.b, fit, m);
            if offers_live(grown, offers) && (forall|n: u32| #[trigger]
                is_partner(grown, e.a, n) ==> is_offered(offers, e.a, n)) {
                assert(merges(v, with_offers(grown, offers), e, fit, m, offers));
            }
        },
        Step::PairAll => {
            let x = MergeView { all_pairs_used: true, ..with_offers(w, offers) };
            if offers_live(w, offers) && (forall|a: u32, b: u32|
                a < b && #[trigger] w.is_live_pair(a, b) && !w.prims[a as int].neighbors.contains(b) ==> is_offered(
                    offers,
                    a,
                    b,
                )) {
                assert(pairs_all(v, x, offers));
            }
        },
        _ => {},
    }
}

/// The turns run out: each leaves fewer primitives, or else uses all pairs for
/// the first time, or else shortens the queue.
pub proof fn law_turns_run_out(v: MergeView, w: MergeView)
    requires
        on_course(v),
        turns(v, w),
    ensures
        ({
            ||| w.live() < v.live()
            ||| w.live() == v.live() && w.all_pairs_used && !v.all_pairs_used
            ||| w.live() == v.live() && w.all_pairs_used == v.all_pairs_used && w.queue.len() < v.queue.len()
        }),
{
    if exists|e: PqEntry| drops(v, w, e) {
        let e = choose|e: PqEntry| drops(v, w, e);
        assert(v.queue.remove(e).len() == v.queue.len() - 1);
    } else if exists|e: PqEntry, fit: Fit, m: Measured, offers: Seq<Offer>| merges(v, w, e, fit, m, offers) {
        let (e, fit, m, offers) = choose|e: PqEntry, fit: Fit, m: Measured, offers: Seq<Offer>|
            merges(v, w, e, fit, m, offers);
        let u = MergeView { queue: v.queue.remove(e), ..v };
        lemma_inv_without(v, e);
        assert(v.queue.contains(e));
        law_commit_keeps_invariant(u, e.a, e.b, fit, m);
        lemma_with_offers(u.committed(e.a, e.b, fit, m), offers);
    } else {
        let offers = choose|offers: Seq<Offer>| pairs_all(v, w, offers);
        lemma_with_offers(v, offers);
    }
}

/// A merge without limits is on course once the pairs of neighbours have been
/// priced.
pub proof fn law_start_is_on_course(v: MergeView, offers: Seq<Offer>, w: MergeView)
    requires
        starts(v, offers, w),
        is_unlimited(v.settings),
    ensures
        on_course(w),
        w.surface == v.surface,
        w.settings == v.settings,
{
    lemma_with_offers(v, offers);
    assert forall|a: u32, b: u32| #[trigger] is_mergeable(w, a, b) implies is_queued(w, a, b) by {
        if a < b {
            assert(v.is_live_pair(a, b));
            lemma_offered_is_queued(v, offers, a, b);
        } else {
            law_neighbors_are_mutual(v, a, b);
            assert(v.is_live_pair(b, a));
            lemma_offered_is_queued(v, offers, b, a);
        }
    }
}

/// Every turn keeps a merge without limits on course.
pub proof fn law_turns_keep_course(v: MergeView, w: MergeView)
    requires
        on_course(v),
        turns(v, w),
    ensures
        on_course(w),
        w.surface == v.surface,
        w.settings == v.settings,
{
    if exists|e: PqEntry| drops(v, w, e) {
        let e = choose|e: PqEntry| drops(v, w, e);
        lemma_drop_keeps_course(v, w, e);
    } else if exists|e: PqEntry, fit: Fit, m: Measured, offers: Seq<Offer>| merges(v, w, e, fit, m, offers) {
        let (e, fit, m, offers) = choose|e: PqEntry, fit: Fit, m: Measured, offers: Seq<Offer>|
            merges(v, w, e, fit, m, offers);
        lemma_merge_keeps_course(v, w, e, fit, m, offers);
    } else {
        let offers = choose|offers: Seq<Offer>| pairs_all(v, w, offers);
        lemma_pairing_keeps_course(v, w, offers);
    }
}

proof fn lemma_inv_without(v: MergeView, e: PqEntry)
    requires
        v.inv(),
    ensures
        (MergeView { queue: v.queue.remove(e), ..v }).inv(),
{
    let u = MergeView { queue: v.queue.remove(e), ..v };
    assert forall|x: PqEntry| #[trigger] u.queue.contains(x) implies x.a != x.b && x.a < u.prims.len() && x.b
        < u.prims.len() by {
        assert(v.queue.contains(x));
    }
    assert forall|i: int| 0 <= i < u.prims.len() && u.prims[i].alive && u.prims[i].face_count >= 2 implies u.settings.allows(
        #[trigger] u.measured[i],
    ) by {
        assert(v.settings.allows(v.measured[i]));
    }
}

proof fn lemma_drop_keeps_course(v: MergeView, w: MergeView, e: PqEntry)
    requires
        on_course(v),
        drops(v, w, e),
    ensures
        on_course(w),
        w.surface == v.surface,
        w.settings == v.settings,
{
    lemma_inv_without(v, e);
    assert forall|i: int| 0 <= i < w.prims.len() && w.prims[i].alive && w.prims[i].face_count >= 2 implies w.settings.allows(
        #[trigger] w.measured[i],
    ) by {
        assert(v.settings.allows(v.measured[i]));
    }
    assert forall|x: PqEntry| #[trigger] w.queue.contains(x) implies x.a != x.b && x.a < w.prims.len() && x.b
        < w.prims.len() by {
        assert(v.queue.contains(x));
    }
    assert forall|a: u32, b: u32| #[trigger] is_mergeable(w, a, b) implies is_queued(w, a, b) by {
        assert(is_mergeable(v, a, b));
        let x = choose|x: PqEntry| #[trigger] v.queue.contains(x) && !is_stale(v.prims, x) && joins(x, a, b);
        assert(x != e);
        assert(w.queue.contains(x) && !is_stale(w.prims, x) && joins(x, a, b));
    }
}

proof fn lemma_merge_keeps_course(
    v: MergeView,
    w: MergeView,
    e: PqEntry,
    fit: Fit,
    m: Measured,
    offers: Seq<Offer>,
)
    requires
        on_course(v),
        v.live() > v.settings.target,
        merges(v, w, e, fit, m, offers),
    ensures
        on_course(w),
        w.surface == v.surface,
        w.settings == v.settings,
{
    let u = MergeView { queue: v.queue.remove(e), ..v };
    let g = u.committed(e.a, e.b, fit, m);
    lemma_inv_without(v, e);
    assert(v.queue.contains(e));
    assert(u.is_live_pair(e.a, e.b));
    law_commit_keeps_invariant(u, e.a, e.b, fit, m);
    lemma_with_offers(g, offers);
    assert forall|a: u32, b: u32| #[trigger] is_mergeable(w, a, b) implies is_queued(w, a, b) by {
        assert(g.is_live_pair(a, b));
        if a == e.a {
            assert(is_partner(g, e.a, b));
            lemma_offered_is_queued(g, offers, e.a, b);
        } else if b == e.a {
            if !g.all_pairs_used {
                law_neighbors_are_mutual(g, a, b);
            }
            assert(is_partner(g, e.a, a));
            lemma_offered_is_queued(g, offers, e.a, a);
        } else {
            assert(a != e.b && b != e.b);
            assert(is_mergeable(v, a, b));
            let x = choose|x: PqEntry| #[trigger] v.queue.contains(x) && !is_stale(v.prims, x) && joins(x, a, b);
            assert(x != e);
            assert(g.queue.contains(x) && !is_stale(g.prims, x) && joins(x, a, b));
            lemma_queued_stays(g, offers, a, b);
        }
    }
}

proof fn lemma_pairing_keeps_course(v: MergeView, w: MergeView, offers: Seq<Offer>)
    requires
        on_course(v),
        pairs_all(v, w, offers),
    ensures
        on_course(w),
        w.surface == v.surface,
        w.settings == v.settings,
{
    let u = with_offers(v, offers);
    lemma_with_offers(v, offers);
    assert forall|i: int| 0 <= i < w.prims.len() && w.prims[i].alive && w.prims[i].face_count >= 2 implies w.settings.allows(
        #[trigger] w.measured[i],
    ) by {
        assert(u.settings.allows(u.measured[i]));
    }
    assert forall|x: PqEntry| #[trigger] w.queue.contains(x) implies x.a != x.b && x.a < w.prims.len() && x.b
        < w.prims.len() by {
        assert(u.queue.contains(x));
    }
    assert forall|a: u32, b: u32| #[trigger] is_mergeable(w, a, b) implies is_queued(w, a, b) by {
        let (lo, hi) = if a < b {
            (a, b)
        } else {
            (b, a)
        };
        assert(v.is_live_pair(lo, hi));
        if v.prims[lo as int].neighbors.contains(hi) {
            assert(is_mergeable(v, lo, hi));
            let x = choose|x: PqEntry| #[trigger] v.queue.contains(x) && !is_stale(v.prims, x) && joins(x, lo, hi);
            assert(v.queue.count(x) > 0);
            lemma_empty_has_none(v.queue, x);
        }
        lemma_offered_is_queued(v, offers, lo, hi);
        let x = choose|x: PqEntry| #[trigger] u.queue.contains(x) && !is_stale(u.prims, x) && joins(x, a, b);
        assert(w.queue.contains(x) && !is_stale(w.prims, x) && joins(x, a, b));
    }
}

proof fn lemma_empty_has_none(q: Multiset<PqEntry>, e: PqEntry)
    requires
        q.len() == 0,
    ensures
        !q.contains(e),
{
    if q.contains(e) {
        vstd::multiset::lemma_multiset_empty_len(q);
    }
}

/// Where more than one primitive is alive, two are.
proof fn lemma_two_alive(ps: Seq<PrimView>) -> (pair: (int, int))
    requires
        live_count(ps) >= 2,
    ensures
        0 <= pair.0 < pair.1 < ps.len(),
        ps[pair.0].alive,
        ps[pair.1].alive,
    decreases ps.len(),
{
    if ps.last().alive && live_count(ps.drop_last()) == 1 {
        let i = lemma_one_alive(ps.drop_last());
        (i, ps.len() - 1)
    } else {
        lemma_two_alive(ps.drop_last())
    }
}

proof fn lemma_one_alive(ps: Seq<PrimView>) -> (i: int)
    requires
        live_count(ps) >= 1,
    ensures
        0 <= i < ps.len(),
        ps[i].alive,
    decreases ps.len(),
{
    if ps.last().alive {
        ps.len() - 1
    } else {
        lemma_one_alive(ps.drop_last())
    }
}

/// A merge without limits that stops has as many primitives as asked for, or as
/// many as there are faces, if those are fewer; no face is lost.
pub proof fn law_course_ends_at_target(v: MergeView)
    requires
        on_course(v),
        stops(v),
        v.settings.target >= 1,
    ensures
        v.live() == goal(v),
        v.merges_done == v.surface.len() - v.live(),
        v.prims.len() == v.surface.len(),
        face_total(v.prims) == v.surface.len(),
        forall|i: int| 0 <= i < v.prims.len() ==> is_set((#[trigger] v.prims[i]).vertices),
{
    if v.live() > v.settings.target {
        let (i, j) = lemma_two_alive(v.prims);
        let (a, b) = (i as u32, j as u32);
        assert(is_mergeable(v, a, b));
        let x = choose|x: PqEntry| #[trigger] v.queue.contains(x) && !is_stale(v.prims, x) && joins(x, a, b);
        lemma_empty_has_none(v.queue, x);
    }
}

/// The states of a merge, from the start on.
pub open spec fn is_run(run: Seq<MergeView>) -> bool {
    &&& run.len() > 0
    &&& forall|k: int| 0 <= k < run.len() - 1 ==> turns(#[trigger] run[k], run[k + 1])
}

/// The forced count is reached: a merge without limits in which all pairs that
/// it asks for are priced ends with as many primitives as asked for, or as many
/// as there are faces, if those are fewer.
pub proof fn law_forced_count_is_reached(v: MergeView, offers: Seq<Offer>, run: Seq<MergeView>)
    requires
        is_run(run),
        starts(v, offers, run[0]),
        is_unlimited(v.settings),
        v.settings.target >= 1,
        stops(run.last()),
    ensures
        run.last().live() == goal(v),
        run.last().merges_done == v.surface.len() - run.last().live(),
        run.last().prims.len() == v.surface.len(),
        face_total(run.last().prims) == v.surface.len(),
        forall|i: int| 0 <= i < run.last().prims.len() ==> is_set((#[trigger] run.last().prims[i]).vertices),
{
    law_start_is_on_course(v, offers, run[0]);
    lemma_run_is_on_course(v, run, run.len() - 1);
    law_course_ends_at_target(run.last());
}

proof fn lemma_run_is_on_course(v: MergeView, run: Seq<MergeView>, k: int)
    requires
        is_run(run),
        on_course(run[0]),
        run[0].surface == v.surface,
        run[0].settings == v.settings,
        0 <= k < run.len(),
    ensures
        on_course(run[k]),
        run[k].surface == v.surface,
        run[k].settings == v.settings,
    decreases k,
{
    if k > 0 {
        lemma_run_is_on_course(v, run, k - 1);
        assert(turns(run[k - 1], run[k - 1 + 1]));
        law_turns_keep_course(run[k - 1], run[k]);
    }
}

} // verus!
