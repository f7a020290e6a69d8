//! What splitting and regrouping do.
//!
//! How faces move between groups, how groups are cut in two, which group is
//! tried next, and which of the splits that were tried is kept.

use crate::mesh::Adjacency;
use crate::order::no_nan;
use crate::primitive::PrimView;
use crate::rebalance::can_move;
use crate::regroup::{GroupsView, Shape, divides, regrown, without};
use crate::scalar::Scalar;
use crate::select::law_worst_is_first_greatest;
use crate::split::{
    ScoredSplit, SplitPassMode, at_most, clamped, flagged, has_tiny_half, kept_or, may_replace, nearer_first, split_kept,
    takes_over,
};
use crate::split_pass::{Pick, SplitPassView};
use vstd::prelude::*;

verus! {

/// Taking a face out of a list takes out that face and keeps the others in
/// their order.
pub proof fn law_without_drops_one(s: Seq<u32>, x: u32, y: u32)
    ensures
        without(s, x) == s.filter(|f: u32| f != x),
        without(s, x).contains(y) <==> s.contains(y) && y != x,
        s.no_duplicates() && s.contains(x) ==> without(s, x).len() + 1 == s.len(),
        !s.contains(x) ==> without(s, x) == s,
    decreases s.len(),
{
    reveal(Seq::filter);
    if s.len() > 0 {
        let r = s.drop_last();
        law_without_drops_one(r, x, y);
        law_without_drops_one(r, x, s.last());
        let w = without(r, x);
        assert(s =~= r.push(s.last()));
        assert(s.last() == s[s.len() - 1]);
        assert(s.contains(s.last()));
        assert forall|z: u32| #[trigger] r.contains(z) implies s.contains(z) by {
            let i = choose|i: int| 0 <= i < r.len() && r[i] == z;
            assert(s[i] == z);
        }
        assert forall|z: u32| #[trigger] s.contains(z) && z != s.last() implies r.contains(z) by {
            let i = choose|i: int| 0 <= i < s.len() && s[i] == z;
            assert(r[i] == z);
        }
        if s.last() != x {
            let p = w.push(s.last());
            if w.contains(y) {
                let i = choose|i: int| 0 <= i < w.len() && w[i] == y;
                assert(p[i] == y);
            }
            if p.contains(y) && y != s.last() {
                let i = choose|i: int| 0 <= i < p.len() && p[i] == y;
                assert(w[i] == y);
            }
            assert(p[w.len() as int] == s.last());
        }
        if s.no_duplicates() {
            assert(r.no_duplicates());
            if s.last() == x {
                assert(!r.contains(x)) by {
                    if r.contains(x) {
                        let i = choose|i: int| 0 <= i < r.len() && r[i] == x;
                        assert(s[i] == s[s.len() - 1]);
                    }
                }
            }
        }
    }
}

/// Moving a face changes the group of that face alone: it leaves its group and
/// joins the other at the end.
pub proof fn law_one_face_moves(v: GroupsView, f: u32, to: u32, h: u32, g: int)
    requires
        v.consistent(),
        f < v.faces(),
        h < v.faces(),
        to < v.groups.len(),
        to != v.assignment[f as int],
        0 <= g < v.groups.len(),
    ensures
        v.moved(f, to).assignment[f as int] == to,
        h != f ==> v.moved(f, to).assignment[h as int] == v.assignment[h as int],
        v.moved(f, to).groups[to as int].contains(f),
        v.moved(f, to).groups[to as int].last() == f,
        !v.moved(f, to).groups[v.assignment[f as int] as int].contains(f),
        h != f ==> (v.moved(f, to).groups[g].contains(h) <==> v.groups[g].contains(h)),
        g != to && g != v.assignment[f as int] ==> v.moved(f, to).groups[g] == v.groups[g],
{
    let from = v.assignment[f as int] as int;
    law_without_drops_one(v.groups[from], f, f);
    law_without_drops_one(v.groups[from], f, h);
    let (s, t) = (v.groups[to as int], v.groups[to as int].push(f));
    assert(t[s.len() as int] == f);
    if s.contains(h) {
        let i = choose|i: int| 0 <= i < s.len() && s[i] == h;
        assert(t[i] == h);
    }
    if t.contains(h) && h != f {
        let i = choose|i: int| 0 <= i < t.len() && t[i] == h;
        assert(s[i] == h);
    }
}

/// Moving a face back puts every face where it was.
pub proof fn law_move_is_undone(v: GroupsView, f: u32, to: u32)
    requires
        v.consistent(),
        f < v.faces(),
        to < v.groups.len(),
        to != v.assignment[f as int],
    ensures
        v.moved(f, to).moved(f, v.assignment[f as int]).assignment == v.assignment,
{
    assert(v.moved(f, to).moved(f, v.assignment[f as int]).assignment =~= v.assignment);
}

/// Dividing a group leaves it the first part and makes a new last group of the
/// second; the other groups and their faces stay as they are.
pub proof fn law_divided_group(v: GroupsView, g: int, a: Seq<u32>, b: Seq<u32>, f: u32, h: int)
    requires
        v.consistent(),
        0 <= g < v.groups.len(),
        divides(v.groups[g], a, b),
        f < v.faces(),
        0 <= h < v.groups.len(),
    ensures
        v.divided(g, a, b).groups.len() == v.groups.len() + 1,
        v.divided(g, a, b).groups[g] == a,
        v.divided(g, a, b).groups.last() == b,
        h != g ==> v.divided(g, a, b).groups[h] == v.groups[h],
        a.contains(f) ==> v.divided(g, a, b).assignment[f as int] == g,
        b.contains(f) ==> v.divided(g, a, b).assignment[f as int] == v.groups.len(),
        v.assignment[f as int] != g ==> v.divided(g, a, b).assignment[f as int] == v.assignment[f as int],
{
    assert(v.groups[g].contains(f) <==> v.assignment[f as int] == g);
    if b.contains(f) {
        assert(v.groups[g].contains(f));
    }
    if a.contains(f) {
        assert(v.groups[g].contains(f));
        assert(!(a.contains(f) && b.contains(f)));
    }
}

/// A primitive that was fitted anew has the shape that was fitted, counts the
/// faces of its group, and is newer than before.
pub proof fn law_regrown_takes_the_shape(p: PrimView, q: PrimView, faces: Seq<u32>, shape: Shape, live: bool)
    requires
        regrown(p, q, faces, shape, live),
    ensures
        q.prim == shape.fit.prim,
        q.q == shape.fit.q,
        q.volume == shape.fit.volume,
        q.weighted_volume == shape.fit.weighted_volume,
        q.proxies == shape.proxies@,
        q.face_count == faces.len(),
        q.version == p.version + 1,
        q.alive == live,
{
}

/// A cut leaves both parts at least the margin, and stands as near as that
/// allows to where it was asked for.
pub proof fn law_cut_leaves_both_parts(cut: int, margin: int, n: int, other: int)
    requires
        0 < margin,
        2 * margin <= n,
    ensures
        margin <= clamped(cut, margin, n) <= n - margin,
        margin <= cut <= n - margin ==> clamped(cut, margin, n) == cut,
        margin <= other <= n - margin && cut <= other ==> clamped(cut, margin, n) <= other,
        margin <= other <= n - margin && other <= cut ==> other <= clamped(cut, margin, n),
{
}

/// The faces with a flag keep their order: each stands behind those with the
/// flag before it.
pub proof fn law_flagged_keep_their_order(faces: Seq<u32>, flags: Seq<bool>, want: bool, i: int)
    requires
        faces.len() == flags.len(),
        0 <= i < faces.len(),
        flags[i] == want,
    ensures
        ({
            let k = flagged(faces.subrange(0, i), flags.subrange(0, i), want).len();
            k < flagged(faces, flags, want).len() && flagged(faces, flags, want)[k as int] == faces[i]
        }),
    decreases faces.len(),
{
    let (r, q) = (faces.drop_last(), flags.drop_last());
    if i == faces.len() - 1 {
        assert(faces.subrange(0, i) =~= r);
        assert(flags.subrange(0, i) =~= q);
    } else {
        law_flagged_keep_their_order(r, q, want, i);
        assert(r.subrange(0, i) =~= faces.subrange(0, i));
        assert(q.subrange(0, i) =~= flags.subrange(0, i));
    }
}

/// Every face goes to the side that its flag says, and the sides take them all.
pub proof fn law_flags_choose_the_side(faces: Seq<u32>, flags: Seq<bool>, want: bool, f: u32)
    requires
        faces.len() == flags.len(),
    ensures
        flagged(faces, flags, want).contains(f) <==> exists|i: int|
            0 <= i < faces.len() && #[trigger] faces[i] == f && flags[i] == want,
        flagged(faces, flags, true).len() + flagged(faces, flags, false).len() == faces.len(),
    decreases faces.len(),
{
    if faces.len() > 0 {
        let (r, q) = (faces.drop_last(), flags.drop_last());
        law_flags_choose_the_side(r, q, want, f);
        let (s, t) = (flagged(r, q, want), flagged(faces, flags, want));
        let n = faces.len() - 1;
        if s.contains(f) {
            let i = choose|i: int| 0 <= i < r.len() && #[trigger] r[i] == f && q[i] == want;
            assert(faces[i] == f && flags[i] == want);
            let k = choose|k: int| 0 <= k < s.len() && s[k] == f;
            assert(t[k] == f);
        }
        if flags[n] == want && faces[n] == f {
            assert(t[s.len() as int] == f);
        }
        if t.contains(f) && !s.contains(f) {
            let k = choose|k: int| 0 <= k < t.len() && t[k] == f;
            if k < s.len() {
                assert(s[k] == f);
            }
            assert(faces[n] == f && flags[n] == want);
        }
        if exists|i: int| 0 <= i < faces.len() && #[trigger] faces[i] == f && flags[i] == want {
            let i = choose|i: int| 0 <= i < faces.len() && #[trigger] faces[i] == f && flags[i] == want;
            if i < n {
                assert(r[i] == f && q[i] == want);
            }
        }
    }
}

/// A threshold puts the faces up to it on the first side and those above it on
/// the second.
pub proof fn law_threshold_parts_the_faces(faces: Seq<u32>, keys: Seq<Scalar>, threshold: Scalar, i: int)
    requires
        faces.len() == keys.len(),
        0 <= i < faces.len(),
    ensures
        keys[i].spec_le(threshold) ==> flagged(faces, at_most(keys, threshold), true).contains(faces[i]),
        threshold.spec_lt(keys[i]) ==> flagged(faces, at_most(keys, threshold), false).contains(faces[i]),
        faces.no_duplicates() && keys[i].spec_le(threshold) ==> !flagged(faces, at_most(keys, threshold), false).contains(
            faces[i],
        ),
{
    let flags = at_most(keys, threshold);
    law_flags_choose_the_side(faces, flags, true, faces[i]);
    law_flags_choose_the_side(faces, flags, false, faces[i]);
    if keys[i].spec_le(threshold) {
        assert(faces[i] == faces[i] && flags[i] == true);
    } else {
        assert(faces[i] == faces[i] && flags[i] == false);
    }
}

/// What is nearer to the second goes to the second; what is as near to both
/// goes to the first.
pub proof fn law_nearer_side_is_chosen(da: Seq<Scalar>, db: Seq<Scalar>, i: int)
    requires
        da.len() == db.len(),
        0 <= i < da.len(),
    ensures
        da[i].spec_lt(db[i]) ==> nearer_first(da, db)[i],
        db[i].spec_lt(da[i]) ==> !nearer_first(da, db)[i],
        da[i] == db[i] && !da[i].spec_is_nan() ==> nearer_first(da, db)[i],
{
}

/// A split has a tiny half where one side has a single face or none.
pub proof fn law_tiny_half(a: Seq<u32>, b: Seq<u32>)
    ensures
        a.len() <= 1 || b.len() <= 1 ==> has_tiny_half(a, b),
        a.len() >= 2 && b.len() >= 2 ==> !has_tiny_half(a, b),
        has_tiny_half(a, b) == has_tiny_half(b, a),
{
}

/// The worse of two scores is below a third exactly where both are.
pub proof fn law_improving_means_both(a: Scalar, b: Scalar, original: Scalar)
    requires
        !a.spec_is_nan(),
        !b.spec_is_nan(),
    ensures
        a.spec_max(b).spec_lt(original) <==> a.spec_lt(original) && b.spec_lt(original),
{
}

/// A split that is kept beats what was there by the margin; one that repairs a
/// slab has no tiny half and is not oversized. Where none is kept, none of them
/// would have done.
pub proof fn law_kept_split_does_better(start: ScoredSplit, splits: Seq<ScoredSplit>, mode: SplitPassMode, j: int)
    requires
        forall|i: int| 0 <= i < splits.len() ==> (#[trigger] splits[i]).score.spec_le(splits[i].with_margin),
        0 <= j < splits.len(),
    ensures
        split_kept(start, splits, mode) matches Some(i) ==> {
            &&& 0 <= i < splits.len()
            &&& splits[i].with_margin.spec_lt(start.score)
            &&& mode == SplitPassMode::SlabCornerRepair ==> !splits[i].tiny && !splits[i].oversized
        },
        split_kept(start, splits, mode) is None && mode == SplitPassMode::General ==> !splits[j].with_margin.spec_lt(
            start.score,
        ),
        split_kept(start, splits, mode) is None && mode == SplitPassMode::SlabCornerRepair
            && splits[j].with_margin.spec_lt(start.score) ==> splits[j].tiny || splits[j].oversized
            || start.scaled.spec_lt(splits[j].score),
{
    crate::split::law_kept_split_improves(start, splits, mode);
    if split_kept(start, splits, mode) is None {
        lemma_none_takes_over(start, splits, mode, j);
    }
}

proof fn lemma_none_takes_over(start: ScoredSplit, splits: Seq<ScoredSplit>, mode: SplitPassMode, j: int)
    requires
        split_kept(start, splits, mode) is None,
        0 <= j < splits.len(),
    ensures
        !takes_over(splits[j], start, mode),
    decreases splits.len(),
{
    if j < splits.len() - 1 {
        lemma_none_takes_over(start, splits.drop_last(), mode, j);
    } else {
        assert(kept_or(start, splits, split_kept(start, splits.drop_last(), mode)) == start);
    }
}

/// A split takes over from the one kept so far where it beats it by the margin;
/// one that repairs a slab must also have no tiny half, not be oversized, and
/// score no worse than the scaled score of what was kept.
pub proof fn law_taking_over(c: ScoredSplit, best: ScoredSplit, score: Scalar)
    ensures
        takes_over(c, best, SplitPassMode::General) <==> c.with_margin.spec_lt(best.score),
        takes_over(c, best, SplitPassMode::SlabCornerRepair) <==> c.with_margin.spec_lt(best.score) && !c.tiny && !c.oversized
            && !best.scaled.spec_lt(c.score),
        may_replace(c, score, SplitPassMode::General) <==> c.with_margin.spec_lt(score),
        may_replace(c, score, SplitPassMode::SlabCornerRepair) <==> c.with_margin.spec_lt(score) && !c.tiny && !c.oversized,
{
}

/// A group that may be tried: alive, not tried in vain yet, and of two faces or
/// more.
pub open spec fn may_be_tried(v: SplitPassView, g: int) -> bool {
    &&& 0 <= g < v.groups.groups.len()
    &&& v.live[g]
    &&& !v.tried[g]
    &&& v.groups.groups[g].len() > 1
}

/// The group to split is the first of the worst among those that may be tried
/// and are eligible, and scores above one.
pub proof fn law_worst_group_is_picked(v: SplitPassView, eligible: Seq<bool>, scores: Seq<Scalar>, p: Pick, q: int)
    requires
        v.inv(),
        eligible.len() == v.groups.groups.len(),
        scores.len() == v.groups.groups.len(),
        no_nan(scores),
        v.is_next(eligible, scores, Some(p)),
        !p.debug_only,
    ensures
        may_be_tried(v, p.pid as int),
        eligible[p.pid as int],
        p.score == scores[p.pid as int],
        (Scalar { bits: 0x3f80_0000 }).spec_lt(scores[p.pid as int]),
        v.splits_done < v.max_splits,
        may_be_tried(v, q) && eligible[q] ==> scores[q].spec_le(scores[p.pid as int]),
        may_be_tried(v, q) && eligible[q] && q < p.pid ==> scores[q].spec_lt(scores[p.pid as int]),
{
    law_worst_is_first_greatest(Scalar { bits: 0x3f80_0000 }, v.admitted(eligible), scores);
    if may_be_tried(v, q) && eligible[q] {
        assert(v.admitted(eligible)[q]);
        assert(scores[q].spec_le(scores[p.pid as int]));
    }
}

/// Splitting ends where enough was split or no group is left that may be tried,
/// is eligible and scores above one.
pub proof fn law_splitting_ends_when_nothing_is_left(v: SplitPassView, eligible: Seq<bool>, scores: Seq<Scalar>, q: int)
    requires
        v.inv(),
        eligible.len() == v.groups.groups.len(),
        scores.len() == v.groups.groups.len(),
        no_nan(scores),
        v.is_next(eligible, scores, None),
        v.splits_done < v.max_splits,
        may_be_tried(v, q),
        eligible[q],
    ensures
        scores[q].spec_le(Scalar { bits: 0x3f80_0000 }),
{
    law_worst_is_first_greatest(Scalar { bits: 0x3f80_0000 }, v.admitted(eligible), scores);
    assert(v.admitted(eligible)[q]);
}

/// A group is tried for its report alone only where a report on it is asked
/// for, and only when nothing is left to split.
pub proof fn law_reports_wait_for_splits(v: SplitPassView, eligible: Seq<bool>, scores: Seq<Scalar>, p: Pick, q: int)
    requires
        v.inv(),
        eligible.len() == v.groups.groups.len(),
        scores.len() == v.groups.groups.len(),
        no_nan(scores),
        v.is_next(eligible, scores, Some(p)),
        p.debug_only,
    ensures
        may_be_tried(v, p.pid as int),
        v.debug matches Some(d) && (d.primitive matches Some(t) && (v.roots[p.pid as int] == t || (t < v.groups.faces()
            && v.groups.assignment[t as int] == p.pid))),
        may_be_tried(v, q) && eligible[q] ==> scores[q].spec_le(Scalar { bits: 0x3f80_0000 }),
        may_be_tried(v, q) && q < p.pid ==> v.roots[q] != v.debug->0.primitive->0 && !v.groups.groups[q].contains(
            v.debug->0.primitive->0,
        ),
{
    law_worst_is_first_greatest(Scalar { bits: 0x3f80_0000 }, v.admitted(eligible), scores);
    if may_be_tried(v, q) && eligible[q] {
        assert(v.admitted(eligible)[q]);
    }
    if may_be_tried(v, q) && q < p.pid {
        let t = v.debug->0.primitive->0;
        assert(!v.forced(q));
        assert(v.groups.groups[q].contains(t) <==> t < v.groups.faces() && v.groups.assignment[t as int] == q);
    }
}

/// No report that is asked for is left out when splitting ends early.
pub proof fn law_no_report_is_left_out(v: SplitPassView, eligible: Seq<bool>, scores: Seq<Scalar>, q: int, t: u32)
    requires
        v.inv(),
        v.is_next(eligible, scores, None),
        v.splits_done < v.max_splits,
        v.debug matches Some(d) && d.primitive == Some(t),
        may_be_tried(v, q),
    ensures
        v.roots[q] != t,
        !v.groups.groups[q].contains(t),
{
    assert(!v.forced(q));
    assert(v.groups.groups[q].contains(t) <==> t < v.groups.faces() && v.groups.assignment[t as int] == q);
}

/// A group that was given up is not tried again; the groups stay as they are,
/// and so does what may be tried of the others.
pub proof fn law_given_up_is_not_tried_again(
    v: SplitPassView,
    pid: int,
    q: int,
    eligible: Seq<bool>,
    scores: Seq<Scalar>,
    p: Pick,
)
    requires
        v.inv(),
        0 <= pid < v.groups.groups.len(),
        0 <= q < v.groups.groups.len(),
    ensures
        ({
            let w = v.given_up(pid);
            &&& !may_be_tried(w, pid)
            &&& q != pid ==> may_be_tried(w, q) == may_be_tried(v, q)
            &&& w.is_next(eligible, scores, Some(p)) ==> p.pid != pid
            &&& w.groups == v.groups
            &&& w.roots == v.roots
            &&& w.live == v.live
            &&& w.splits_done == v.splits_done
            &&& w.max_splits == v.max_splits
            &&& w.mode == v.mode
            &&& w.debug == v.debug
            &&& w.picked is None
        }),
{
}

/// A split that is accepted is counted, cuts the group in two, and lets both
/// halves be tried again; the other groups stay as they are.
pub proof fn law_accepted_split_by_field(v: SplitPassView, pid: int, a: Seq<u32>, b: Seq<u32>, q: int)
    requires
        v.inv(),
        0 <= pid < v.groups.groups.len(),
        v.live[pid],
        !v.tried[pid],
        divides(v.groups.groups[pid], a, b),
        0 <= q < v.groups.groups.len(),
        q != pid,
    ensures
        ({
            let w = v.accepted(pid, a, b);
            let n = v.groups.groups.len() as int;
            &&& w.splits_done == v.splits_done + 1
            &&& w.groups.groups[pid] == a
            &&& w.groups.groups[n] == b
            &&& w.groups.groups[q] == v.groups.groups[q]
            &&& w.roots[pid] == a[0]
            &&& w.roots[n] == b[0]
            &&& w.roots[q] == v.roots[q]
            &&& may_be_tried(w, pid) <==> a.len() > 1
            &&& may_be_tried(w, n) <==> b.len() > 1
            &&& may_be_tried(w, q) <==> may_be_tried(v, q)
            &&& w.live[q] == v.live[q]
            &&& w.max_splits == v.max_splits
            &&& w.mode == v.mode
            &&& w.debug == v.debug
            &&& w.picked is None
        }),
{
}

/// A report on a group is wanted where reports are asked for and either none in
/// particular, or that on its own primitive or on one of its faces.
pub proof fn law_reports_wanted(v: SplitPassView, pid: int)
    requires
        v.inv(),
        0 <= pid < v.groups.groups.len(),
    ensures
        v.debug is None ==> !v.debugged(pid),
        v.debug matches Some(d) ==> (d.primitive is None ==> v.debugged(pid)),
        v.debug matches Some(d) ==> (d.primitive matches Some(t) ==> (v.debugged(pid) <==> v.roots[pid] == t || (t
            < v.groups.faces() && v.groups.groups[pid].contains(t)))),
{
    if let Some(d) = v.debug {
        if let Some(t) = d.primitive {
            assert(v.groups.groups[pid].contains(t) <==> t < v.groups.faces() && v.groups.assignment[t as int] == pid);
        }
    }
}

/// A face may move to the groups of its neighbours but its own, and only where
/// it leaves another face behind.
pub proof fn law_faces_move_to_neighbors(v: GroupsView, adj: Adjacency, f: u32, g: u32)
    requires
        v.consistent(),
        f < v.faces(),
    ensures
        can_move(v, adj, f, g) ==> v.assignment[f as int] != g,
        can_move(v, adj, f, g) ==> exists|n: u32| #[trigger] adj.has(f, n) && n < v.faces() && v.assignment[n as int] == g,
        can_move(v, adj, f, g) ==> exists|h: u32|
            h != f && h < v.faces() && #[trigger] v.assignment[h as int] == v.assignment[f as int],
        v.assignment[f as int] != g && (exists|n: u32| #[trigger]
            adj.has(f, n) && n < v.faces() && v.assignment[n as int] == g) && (exists|h: u32|
            h != f && h < v.faces() && #[trigger] v.assignment[h as int] == v.assignment[f as int]) ==> can_move(v, adj, f, g),
{
    let own = v.groups[v.assignment[f as int] as int];
    assert(own.contains(f));
    if own.len() > 1 {
        let i = choose|i: int| 0 <= i < own.len() && own[i] == f;
        let k = if i == 0 {
            1int
        } else {
            0int
        };
        assert(own.contains(own[k]));
        assert(own[k] != f);
        assert(v.assignment[own[k] as int] == v.assignment[f as int]);
    }
    if exists|h: u32| h != f && h < v.faces() && #[trigger] v.assignment[h as int] == v.assignment[f as int] {
        let h = choose|h: u32| h != f && h < v.faces() && #[trigger] v.assignment[h as int] == v.assignment[f as int];
        assert(own.contains(h));
        let i = choose|i: int| 0 <= i < own.len() && own[i] == f;
        let k = choose|k: int| 0 <= k < own.len() && own[k] == h;
        assert(i != k);
    }
}

/// Two parts divide a list where each of its faces is in one of them and in no
/// other, and neither is empty.
pub proof fn law_parts_divide(s: Seq<u32>, a: Seq<u32>, b: Seq<u32>, f: u32)
    requires
        divides(s, a, b),
    ensures
        s.contains(f) ==> a.contains(f) != b.contains(f),
        a.contains(f) ==> s.contains(f),
        b.contains(f) ==> s.contains(f),
        a.len() > 0,
        b.len() > 0,
        a.no_duplicates(),
        b.no_duplicates(),
        divides(s, b, a),
{
    assert(!(a.contains(f) && b.contains(f)));
    assert forall|x: u32| !(#[trigger] b.contains(x) && a.contains(x)) by {
        assert(!(a.contains(x) && b.contains(x)));
    }
}

} // verus!
