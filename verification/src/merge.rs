//! The greedy bottom-up merge.
//!
//! Every face starts as a primitive of its own. The cheapest priced pair is
//! taken from the queue, measured, and merged unless a limit speaks against
//! it; the pairs of the grown primitive are priced anew. Pricing and measuring
//! are geometry and happen outside: [`MergeState`] says what comes next, and
//! is told what was found.

use crate::faces::{FaceRings, RingsView, law_splice_keeps_partition, lemma_distinct_bounded};
use crate::mesh::Adjacency;
use crate::prim::{Prim, Vec3};
use crate::primitive::{
    Fit, PrimView, Primitive, absorb, absorbed, all_wf, face_total, joint_neighbors, law_absorb_keeps_faces,
    law_absorb_takes_one, live_count, live_indices, merge_fit_proxy_points, views,
};
use crate::proximity::{
    PairSet, Reach, all_near, gives_row, looked_at, near, nearest_within, pair_of, table_function, table_row,
};
use crate::queue::{MergeQueue, PqEntry};
use crate::scalar::Scalar;
use crate::sets::{copy_list, is_set, lemma_push_contains, set_contains, set_remove, sort_unique};
use crate::surface::{Surface, has_vertex, law_merge_keeps_tracking};
use std::collections::HashSet;
use vstd::multiset::Multiset;
use vstd::prelude::*;

verus! {

broadcast use vstd::std_specs::hash::group_hash_axioms;

/// When the merge stops and what it refuses.
#[derive(Clone, Copy, Debug, PartialEq, Eq, Structural)]
pub struct MergeSettings {
    /// Merging stops at this many primitives.
    pub target: usize,
    /// A pair that costs more is not queued.
    pub volume_threshold: Scalar,
    /// Once the queue is empty, nearby primitives are paired.
    pub proximity: bool,
    /// The greatest fraction of a merged primitive that may be open space.
    pub max_empty: Option<Scalar>,
    /// The greatest distance from a merged primitive to the mesh.
    pub max_distance: Option<Scalar>,
    /// The greatest distance of a merged primitive outside the mesh.
    pub max_outside: Option<Scalar>,
}

/// What is measured of a merged primitive before the merge is carried out.
#[derive(Clone, Copy, Debug, PartialEq, Eq, Structural)]
pub enum Measure {
    /// How much of it is open space.
    OpenSpace,
    /// How far its surface is from the mesh.
    Distance,
    /// How far it reaches outside the mesh.
    Outside,
}

/// What has been measured so far.
#[derive(Clone, Copy, Debug, PartialEq, Eq, Structural)]
pub struct Measured {
    pub open_space: Option<Scalar>,
    pub distance: Option<Scalar>,
    pub outside: Option<Scalar>,
}

impl Measured {
    pub open spec fn spec_nothing() -> Measured {
        Measured { open_space: None, distance: None, outside: None }
    }

    pub fn nothing() -> (m: Measured)
        ensures
            m == Measured::spec_nothing(),
    {
        Measured { open_space: None, distance: None, outside: None }
    }

    pub open spec fn spec_with(self, what: Measure, x: Scalar) -> Measured {
        match what {
            Measure::OpenSpace => Measured { open_space: Some(x), ..self },
            Measure::Distance => Measured { distance: Some(x), ..self },
            Measure::Outside => Measured { outside: Some(x), ..self },
        }
    }

    /// One more value has been measured.
    pub fn with(self, what: Measure, x: Scalar) -> (m: Measured)
        ensures
            m == self.spec_with(what, x),
    {
        match what {
            Measure::OpenSpace => Measured { open_space: Some(x), ..self },
            Measure::Distance => Measured { distance: Some(x), ..self },
            Measure::Outside => Measured { outside: Some(x), ..self },
        }
    }
}

/// A priced pair, offered for the queue.
#[derive(Clone, Copy, Debug)]
pub struct Offer {
    pub a: u32,
    pub b: u32,
    pub cost: Scalar,
    pub prim: Prim,
    pub volume: Scalar,
    pub weighted_volume: Scalar,
}

/// What the merge asks for next.
#[derive(Clone, Copy, Debug)]
pub enum Step {
    /// The merge is over.
    Done,
    /// The queue is empty for the first time: pair primitives that are near
    /// each other.
    PairNearby,
    /// The queue is empty for the first time: pair all primitives.
    PairAll,
    /// A queued pair was out of date and has been dropped.
    Stale(PqEntry),
    /// A queued pair had been refused before and has been dropped.
    Remembered(PqEntry),
    /// This pair is to be measured.
    Candidate(PqEntry),
}

/// The state of a merge.
pub struct MergeView {
    pub surface: Surface,
    pub settings: MergeSettings,
    pub prims: Seq<PrimView>,
    pub rings: RingsView,
    pub queue: Multiset<PqEntry>,
    /// The pairs refused for bridging open space, with their versions, the
    /// lower primitive first.
    pub refused: Set<(u32, int, u32, int)>,
    /// What was measured of each primitive when it was last merged.
    pub measured: Seq<Measured>,
    pub merges_done: int,
    pub merges_skipped_stale: int,
    pub merges_rejected_empty: int,
    pub merges_rejected_feasibility: int,
    pub merges_rejected_outside: int,
    pub all_pairs_used: bool,
}

/// A pair and the versions of its primitives, the lower primitive first.
pub open spec fn pair_key(e: PqEntry) -> (u32, int, u32, int) {
    if e.a < e.b {
        (e.a, e.va as int, e.b, e.vb as int)
    } else {
        (e.b, e.vb as int, e.a, e.va as int)
    }
}

/// The entry was priced for a state of its primitives that has passed.
pub open spec fn is_stale(ps: Seq<PrimView>, e: PqEntry) -> bool {
    ||| !ps[e.a as int].alive
    ||| !ps[e.b as int].alive
    ||| ps[e.a as int].version != e.va
    ||| ps[e.b as int].version != e.vb
}

/// The measured value is above the limit, where there is one.
pub open spec fn exceeds(measured: Scalar, limit: Option<Scalar>) -> bool {
    match limit {
        Some(max) => max.spec_lt(measured),
        None => false,
    }
}

/// The value has been measured and is not above the limit, where there is one.
pub open spec fn within(measured: Option<Scalar>, limit: Option<Scalar>) -> bool {
    match limit {
        Some(max) => measured matches Some(x) && !max.spec_lt(x),
        None => true,
    }
}

impl MergeSettings {
    /// No limit speaks against a primitive of which this was measured.
    pub open spec fn allows(self, m: Measured) -> bool {
        &&& within(m.open_space, self.max_empty)
        &&& within(m.distance, self.max_distance)
        &&& within(m.outside, self.max_outside)
    }

    /// What is to be measured next: the first of the three for which there is
    /// a limit and no value.
    pub open spec fn lacks(self, m: Measured) -> Option<Measure> {
        if self.max_empty is Some && m.open_space is None {
            Some(Measure::OpenSpace)
        } else if self.max_distance is Some && m.distance is None {
            Some(Measure::Distance)
        } else if self.max_outside is Some && m.outside is None {
            Some(Measure::Outside)
        } else {
            None
        }
    }

    /// The limit for a measured value.
    pub open spec fn limit(self, what: Measure) -> Option<Scalar> {
        match what {
            Measure::OpenSpace => self.max_empty,
            Measure::Distance => self.max_distance,
            Measure::Outside => self.max_outside,
        }
    }
}

/// `e` may come out of the queue next: nothing in it costs less.
pub open spec fn cheapest(queue: Multiset<PqEntry>, e: PqEntry) -> bool {
    &&& queue.contains(e)
    &&& forall|o: PqEntry| #[trigger] queue.contains(o) ==> e.cost.spec_key() <= o.cost.spec_key()
}

impl MergeView {
    pub open spec fn live(self) -> nat {
        live_count(self.prims)
    }

    /// The step that is due here, and the state it leads to.
    pub open spec fn steps_to(self, step: Step, w: MergeView) -> bool {
        let enough = self.live() <= self.settings.target;
        match step {
            Step::Done => w == self && (enough || (self.queue.len() == 0 && (self.all_pairs_used || (
            !self.settings.proximity && self.settings.max_empty is Some)))),
            Step::PairNearby => w == self && !enough && self.queue.len() == 0 && !self.all_pairs_used
                && self.settings.proximity,
            Step::PairAll => w == self && !enough && self.queue.len() == 0 && !self.all_pairs_used
                && !self.settings.proximity && self.settings.max_empty is None,
            Step::Stale(e) => {
                &&& !enough && cheapest(self.queue, e) && is_stale(self.prims, e)
                &&& w == (MergeView {
                    queue: self.queue.remove(e),
                    merges_skipped_stale: self.merges_skipped_stale + 1,
                    ..self
                })
            },
            Step::Remembered(e) => {
                &&& !enough && cheapest(self.queue, e) && !is_stale(self.prims, e) && self.remembers(e)
                &&& w == (MergeView {
                    queue: self.queue.remove(e),
                    merges_rejected_empty: self.merges_rejected_empty + 1,
                    ..self
                })
            },
            Step::Candidate(e) => {
                &&& !enough && cheapest(self.queue, e) && !is_stale(self.prims, e) && !self.remembers(e)
                &&& w == (MergeView { queue: self.queue.remove(e), ..self })
            },
        }
    }

    /// The entry that an offer becomes.
    pub open spec fn entry(self, o: Offer) -> PqEntry {
        PqEntry {
            cost: o.cost,
            a: o.a,
            b: o.b,
            va: self.prims[o.a as int].version as u64,
            vb: self.prims[o.b as int].version as u64,
            prim: o.prim,
            volume: o.volume,
            weighted_volume: o.weighted_volume,
        }
    }

    /// The pair has been refused for bridging open space, and is not to be
    /// measured again.
    pub open spec fn remembers(self, e: PqEntry) -> bool {
        self.settings.max_empty is Some && self.refused.contains(pair_key(e))
    }

    /// Primitives `a` and `b` are different and alive.
    pub open spec fn is_live_pair(self, a: u32, b: u32) -> bool {
        &&& a != b
        &&& a < self.prims.len()
        &&& b < self.prims.len()
        &&& self.prims[a as int].alive
        &&& self.prims[b as int].alive
    }

    /// Primitives reflect their faces, queued pairs are pairs of primitives,
    /// every merge has left one primitive fewer but no fewer than asked for, no
    /// face is lost, and what was merged has kept the limits.
    pub open spec fn inv(self) -> bool {
        &&& self.surface.wf()
        &&& self.surface.tracks(self.prims, self.rings)
        &&& forall|e: PqEntry| #[trigger]
            self.queue.contains(e) ==> e.a != e.b && e.a < self.prims.len() && e.b < self.prims.len()
        &&& self.merges_done + self.live() == self.surface.len()
        &&& self.merges_done > 0 ==> self.settings.target <= self.live()
        &&& face_total(self.prims) == self.surface.len()
        &&& self.measured.len() == self.prims.len()
        &&& forall|i: int|
            0 <= i < self.prims.len() && self.prims[i].alive && self.prims[i].face_count >= 2 ==> self.settings.allows(
                #[trigger] self.measured[i],
            )
        &&& forall|i: int| 0 <= i < self.prims.len() ==> 0 <= (#[trigger] self.prims[i]).version <= self.merges_done
        &&& forall|i: int| 0 <= i < self.prims.len() ==> is_set((#[trigger] self.prims[i]).vertices)
        &&& forall|i: int| 0 <= i < self.prims.len() ==> is_set((#[trigger] self.prims[i]).fit_vertices)
    }

    /// The list holds the live primitives, in order.
    pub open spec fn lists_live(self, live: Seq<u32>) -> bool {
        &&& is_set(live)
        &&& forall|n: u32| #[trigger] live.contains(n) <==> n < self.prims.len() && self.prims[n as int].alive
    }

    /// `p` is the pair of the primitives at places `i` and `j` of the list,
    /// which are not neighbours.
    pub open spec fn is_pair(self, live: Seq<u32>, i: int, j: int, p: (u32, u32)) -> bool {
        !self.prims[live[i] as int].neighbors.contains(live[j]) && p == pair_of(live[i], live[j])
    }

    /// `p` is such a pair, and the second is one of those near the first.
    pub open spec fn is_nearby_pair(
        self,
        live: Seq<u32>,
        d: spec_fn(usize, usize) -> Scalar,
        c: spec_fn(usize, usize) -> Scalar,
        k: usize,
        reach: Reach,
        p: (u32, u32),
    ) -> bool {
        let n = live.len();
        exists|i: int, j: usize|
            0 <= i < n && #[trigger] near(
                table_row(d, n as usize, i),
                table_row(c, n as usize, i),
                i,
                reach,
                looked_at(n as int, k),
            ).contains(j) && self.is_pair(live, i, j as int, p)
    }

    spec fn paired_by(self, live: Seq<u32>, lists: Seq<Vec<usize>>, rows: int, x: int, p: (u32, u32)) -> bool {
        exists|i: int, y: int|
            0 <= i < lists.len() && 0 <= y < lists[i]@.len() && (i < rows || (i == rows && y < x)) && self.is_pair(
                live,
                i,
                #[trigger] lists[i]@[y] as int,
                p,
            )
    }

    proof fn lemma_paired_step(self, live: Seq<u32>, lists: Seq<Vec<usize>>, i: int, x: int, p: (u32, u32))
        requires
            0 <= i < lists.len(),
            0 <= x < lists[i]@.len(),
        ensures
            self.paired_by(live, lists, i, x + 1, p) <==> self.paired_by(live, lists, i, x, p) || self.is_pair(
                live,
                i,
                lists[i]@[x] as int,
                p,
            ),
    {
        if self.paired_by(live, lists, i, x + 1, p) {
            let (k, y) = choose|k: int, y: int|
                0 <= k < lists.len() && 0 <= y < lists[k]@.len() && (k < i || (k == i && y < x + 1)) && self.is_pair(
                    live,
                    k,
                    #[trigger] lists[k]@[y] as int,
                    p,
                );
            if !(k == i && y == x) {
                assert(self.is_pair(live, k, lists[k]@[y] as int, p));
            }
        }
        if self.paired_by(live, lists, i, x, p) {
            let (k, y) = choose|k: int, y: int|
                0 <= k < lists.len() && 0 <= y < lists[k]@.len() && (k < i || (k == i && y < x)) && self.is_pair(
                    live,
                    k,
                    #[trigger] lists[k]@[y] as int,
                    p,
                );
            assert(self.is_pair(live, k, lists[k]@[y] as int, p));
        }
    }

    proof fn lemma_paired_row(self, live: Seq<u32>, lists: Seq<Vec<usize>>, i: int, p: (u32, u32))
        requires
            0 <= i < lists.len(),
        ensures
            self.paired_by(live, lists, i + 1, 0, p) <==> self.paired_by(live, lists, i, lists[i]@.len() as int, p),
    {
        let m = lists[i]@.len() as int;
        if self.paired_by(live, lists, i + 1, 0, p) {
            let (k, y) = choose|k: int, y: int|
                0 <= k < lists.len() && 0 <= y < lists[k]@.len() && (k < i + 1 || (k == i + 1 && y < 0))
                    && self.is_pair(live, k, #[trigger] lists[k]@[y] as int, p);
            assert(self.is_pair(live, k, lists[k]@[y] as int, p));
        }
        if self.paired_by(live, lists, i, m, p) {
            let (k, y) = choose|k: int, y: int|
                0 <= k < lists.len() && 0 <= y < lists[k]@.len() && (k < i || (k == i && y < m)) && self.is_pair(
                    live,
                    k,
                    #[trigger] lists[k]@[y] as int,
                    p,
                );
            assert(self.is_pair(live, k, lists[k]@[y] as int, p));
        }
    }

    /// Primitive `b` is merged into `a`, of which this was measured.
    pub open spec fn committed(self, a: u32, b: u32, fit: Fit, m: Measured) -> MergeView {
        MergeView {
            prims: absorbed(self.prims, a, b, fit, true),
            rings: self.rings.spliced(a, b),
            measured: self.measured.update(a as int, m),
            merges_done: self.merges_done + 1,
            ..self
        }
    }

    /// A candidate has been refused: that is counted, and a refusal for open
    /// space is remembered.
    pub open spec fn refusing(self, e: PqEntry, what: Measure) -> MergeView {
        match what {
            Measure::OpenSpace => MergeView {
                refused: self.refused.insert(pair_key(e)),
                merges_rejected_empty: self.merges_rejected_empty + 1,
                ..self
            },
            Measure::Distance => MergeView {
                merges_rejected_feasibility: self.merges_rejected_feasibility + 1,
                ..self
            },
            Measure::Outside => MergeView { merges_rejected_outside: self.merges_rejected_outside + 1, ..self },
        }
    }
}

/// Every face belongs to exactly one live primitive, whose vertices include
/// those of the face.
pub proof fn law_faces_have_one_owner(v: MergeView, f: u32)
    requires
        v.inv(),
        f < v.surface.len(),
    ensures
        ({
            let p = v.rings.owner[f as int];
            &&& p < v.prims.len()
            &&& v.prims[p as int].alive
            &&& v.rings.ring[p as int].contains(f)
            &&& forall|x: u32| has_vertex(v.surface.tris[f as int], x) ==> v.prims[p as int].vertices.contains(x)
            &&& forall|q: u32| q < v.prims.len() && #[trigger] v.rings.ring[q as int].contains(f) ==> q == p
        }),
{
    let p = v.rings.owner[f as int];
    assert(v.rings.is_root(v.rings.owner[f as int]));
    assert(v.surface.reflects(v.prims[p as int], v.rings, p));
    assert(v.rings.ring[v.rings.owner[f as int] as int].contains(f));
    assert forall|x: u32| has_vertex(v.surface.tris[f as int], x) implies v.prims[p as int].vertices.contains(x) by {
        assert(v.rings.owner[f as int] == p && has_vertex(v.surface.tris[f as int], x));
        assert(v.surface.owns_vertex(v.rings, p, x));
    }
    assert forall|q: u32| q < v.prims.len() && #[trigger] v.rings.ring[q as int].contains(f) implies q == p by {
        let r = v.rings.ring[q as int];
        let i = choose|i: int| 0 <= i < r.len() && r[i] == f;
        assert(v.rings.is_root(q)) by {
            if !v.rings.is_root(q) {
                assert(v.rings.ring[q as int].len() == 0);
            }
        }
        assert(v.rings.owner[v.rings.ring[q as int][i] as int] == q);
    }
}

/// Being neighbours goes both ways.
pub proof fn law_neighbors_are_mutual(v: MergeView, a: u32, b: u32)
    requires
        v.inv(),
        a < v.prims.len(),
        v.prims[a as int].neighbors.contains(b),
    ensures
        b < v.prims.len(),
        v.prims[b as int].alive,
        v.prims[b as int].neighbors.contains(a),
{
    assert(v.surface.reflects(v.prims[a as int], v.rings, a));
    assert(v.surface.touches(v.rings, a, b));
    let (f, g) = choose|f: u32, g: u32|
        f < v.surface.len() && g < v.surface.len() && v.rings.owner[f as int] == a && v.rings.owner[g as int] == b
            && #[trigger] v.surface.adj.has(f, g);
    assert(v.rings.is_root(v.rings.owner[g as int]));
    assert(v.surface.adj.has(g, f));
    assert(v.surface.reflects(v.prims[b as int], v.rings, b));
    assert(v.surface.touches(v.rings, b, a));
}

/// A merge of two live primitives that keeps the limits keeps the invariant of
/// the merge.
pub proof fn law_commit_keeps_invariant(v: MergeView, a: u32, b: u32, fit: Fit, m: Measured)
    requires
        v.inv(),
        v.is_live_pair(a, b),
        v.settings.target < v.live(),
        v.settings.allows(m),
    ensures
        v.committed(a, b, fit, m).inv(),
        v.committed(a, b, fit, m).live() + 1 == v.live(),
{
    let w = v.committed(a, b, fit, m);
    assert(v.surface.reflects(v.prims[a as int], v.rings, a));
    assert(v.surface.reflects(v.prims[b as int], v.rings, b));
    law_merge_keeps_tracking(v.surface, v.prims, v.rings, a, b, fit);
    law_absorb_takes_one(v.prims, a, b, fit, true);
    law_absorb_keeps_faces(v.prims, a, b, fit, true);
    crate::sets::law_merge_is_union(v.prims[a as int].vertices, v.prims[b as int].vertices);
    crate::sets::law_merge_is_union(v.prims[a as int].fit_vertices, v.prims[b as int].fit_vertices);
    assert forall|i: int| 0 <= i < w.prims.len() implies 0 <= (#[trigger] w.prims[i]).version <= w.merges_done by {
        assert(0 <= v.prims[i].version <= v.merges_done);
    }
    assert forall|i: int| 0 <= i < w.prims.len() implies is_set((#[trigger] w.prims[i]).vertices) by {
        assert(is_set(v.prims[i].vertices));
    }
    assert forall|i: int| 0 <= i < w.prims.len() implies is_set((#[trigger] w.prims[i]).fit_vertices) by {
        assert(is_set(v.prims[i].fit_vertices));
    }
    assert forall|i: int| 0 <= i < w.prims.len() && w.prims[i].alive && w.prims[i].face_count >= 2 implies w.settings.allows(
        #[trigger] w.measured[i],
    ) by {
        if i != a {
            assert(v.settings.allows(v.measured[i]));
        }
    }
}

/// No merge over a limit is carried out: of every live primitive that has been
/// merged, the values that are limited were measured and kept their limits.
pub proof fn law_merged_keep_limits(v: MergeView, i: int)
    requires
        v.inv(),
        0 <= i < v.prims.len(),
        v.prims[i].alive,
        v.prims[i].face_count >= 2,
    ensures
        within(v.measured[i].open_space, v.settings.max_empty),
        within(v.measured[i].distance, v.settings.max_distance),
        within(v.measured[i].outside, v.settings.max_outside),
{
    assert(v.settings.allows(v.measured[i]));
}

/// The pairs are listed by their first members, then by their second.
pub open spec fn in_order(pairs: Seq<(u32, u32)>) -> bool {
    forall|i: int, j: int|
        0 <= i < j < pairs.len() ==> (#[trigger] pairs[i]).0 < (#[trigger] pairs[j]).0 || (pairs[i].0 == pairs[j].0
            && pairs[i].1 < pairs[j].1)
}

/// What stands at the given places of a list.
pub open spec fn at_places(list: Seq<u32>, places: Seq<usize>) -> Seq<u32> {
    Seq::new(places.len(), |x: int| list[places[x] as int])
}

/// Merging never goes below the target: once something has been merged, there
/// are at least as many live primitives as asked for, and every merge takes one.
pub proof fn law_merge_stops_at_target(v: MergeView)
    requires
        v.inv(),
        v.merges_done > 0,
    ensures
        v.settings.target <= v.live(),
        v.live() + v.merges_done == v.surface.len(),
{
}

/// Dropping entries and counting keep the invariant.
proof fn lemma_fewer_entries(v: MergeView, w: MergeView)
    requires
        v.inv(),
        w.surface == v.surface,
        w.prims == v.prims,
        w.rings == v.rings,
        w.settings == v.settings,
        w.measured == v.measured,
        w.merges_done == v.merges_done,
        forall|e: PqEntry| #[trigger] w.queue.contains(e) ==> v.queue.contains(e),
    ensures
        w.inv(),
{
    assert forall|e: PqEntry| #[trigger] w.queue.contains(e) implies e.a != e.b && e.a < w.prims.len() && e.b
        < w.prims.len() by {
        assert(v.queue.contains(e));
    }
    assert forall|i: int| 0 <= i < w.prims.len() && w.prims[i].alive && w.prims[i].face_count >= 2 implies w.settings.allows(
        #[trigger] w.measured[i],
    ) by {
        assert(v.settings.allows(v.measured[i]));
    }
}

/// A greedy merge in progress.
pub struct MergeState {
    settings: MergeSettings,
    prims: Vec<Primitive>,
    rings: FaceRings,
    queue: MergeQueue,
    refused: HashSet<u128>,
    alive_count: usize,
    merges_done: usize,
    merges_skipped_stale: usize,
    merges_rejected_empty: usize,
    merges_rejected_feasibility: usize,
    merges_rejected_outside: usize,
    all_pairs_used: bool,
    surface: Ghost<Surface>,
    measured: Ghost<Seq<Measured>>,
}

spec fn pair_code(k: (u32, int, u32, int)) -> int {
    ((k.0 * 0x1_0000_0000 + k.1) * 0x1_0000_0000 + k.2) * 0x1_0000_0000 + k.3
}

spec fn small_versions(k: (u32, int, u32, int)) -> bool {
    0 <= k.1 < 0x1_0000_0000 && 0 <= k.3 < 0x1_0000_0000
}

proof fn lemma_pair_code(k: (u32, int, u32, int), l: (u32, int, u32, int))
    requires
        small_versions(k),
        small_versions(l),
    ensures
        0 <= pair_code(k) <= u128::MAX,
        pair_code(k) == pair_code(l) ==> k == l,
{
}

impl View for MergeState {
    type V = MergeView;

    closed spec fn view(&self) -> MergeView {
        MergeView {
            surface: self.surface@,
            settings: self.settings,
            prims: views(self.prims@),
            rings: self.rings@,
            queue: self.queue@,
            refused: Set::new(
                |k: (u32, int, u32, int)| small_versions(k) && self.refused@.contains(pair_code(k) as u128),
            ),
            measured: self.measured@,
            merges_done: self.merges_done as int,
            merges_skipped_stale: self.merges_skipped_stale as int,
            merges_rejected_empty: self.merges_rejected_empty as int,
            merges_rejected_feasibility: self.merges_rejected_feasibility as int,
            merges_rejected_outside: self.merges_rejected_outside as int,
            all_pairs_used: self.all_pairs_used,
        }
    }
}

impl MergeState {
    pub closed spec fn wf(&self) -> bool {
        &&& self@.inv()
        &&& all_wf(self.prims@)
        &&& self.rings.wf()
        &&& self.queue.wf()
        &&& self.alive_count == self@.live()
    }

    /// The invariant of the merge holds of every well-formed state.
    pub proof fn lemma_inv(&self)
        requires
            self.wf(),
        ensures
            self@.inv(),
    {
    }

    /// Every face a primitive of its own, with the given shapes. Faces that do
    /// not support the fit contribute their proxy points and no vertices.
    pub fn new(
        tris: &Vec<[u32; 3]>,
        support: &Vec<bool>,
        proxies: &Vec<Vec<Vec3>>,
        adj: &Adjacency,
        fits: &Vec<Fit>,
        settings: MergeSettings,
    ) -> (res: Self)
        requires
            tris@.len() <= u32::MAX,
            support@.len() == tris@.len(),
            proxies@.len() == tris@.len(),
            fits@.len() == tris@.len(),
            adj.len() == tris@.len(),
            adj.wf(),
        ensures
            res.wf(),
            res@.surface == (Surface { tris: tris@, support: support@, adj: *adj }),
            res@.settings == settings,
            res@.rings == RingsView::singletons(tris@.len()),
            res@.queue == Multiset::<PqEntry>::empty(),
            res@.refused == Set::<(u32, int, u32, int)>::empty(),
            res@.merges_done == 0,
            res@.merges_skipped_stale == 0,
            res@.merges_rejected_empty == 0,
            res@.merges_rejected_feasibility == 0,
            res@.merges_rejected_outside == 0,
            !res@.all_pairs_used,
            forall|f: int| 0 <= f < tris@.len() ==> starts_as(#[trigger] res@.prims[f], fits@[f], proxies@[f]@),
    {
        let nf: usize = tris.len();
        let ghost surface = Surface { tris: tris@, support: support@, adj: *adj };
        let rings = FaceRings::new(nf);
        let ghost rv = rings@;
        let mut prims: Vec<Primitive> = Vec::new();
        let mut f: usize = 0;
        while f < nf
            invariant
                nf == tris@.len(),
                nf <= u32::MAX,
                support@.len() == nf,
                proxies@.len() == nf,
                fits@.len() == nf,
                adj.len() == nf,
                adj.wf(),
                surface == (Surface { tris: tris@, support: support@, adj: *adj }),
                rv == RingsView::singletons(nf as nat),
                f <= nf,
                prims@.len() == f,
                all_wf(prims@),
                forall|i: int| 0 <= i < f ==> starts_as((#[trigger] prims@[i])@, fits@[i], proxies@[i]@),
                forall|i: u32| i < f ==> surface.reflects((#[trigger] prims@[i as int])@, rv, i),
            decreases nf - f,
        {
            let t: [u32; 3] = tris[f];
            let mut corners: Vec<u32> = Vec::new();
            corners.push(t[0]);
            corners.push(t[1]);
            corners.push(t[2]);
            assert forall|x: u32| #[trigger] corners@.contains(x) <==> has_vertex(t, x) by {
                if t[0] == x {
                    assert(corners@[0] == x);
                }
                if t[1] == x {
                    assert(corners@[1] == x);
                }
                if t[2] == x {
                    assert(corners@[2] == x);
                }
            }
            let vertex_indices = sort_unique(&corners);
            let fit_vertex_indices: Vec<u32> = if support[f] {
                copy_list(&vertex_indices)
            } else {
                Vec::new()
            };
            let neighbors = sort_unique(&adj.neighbors[f]);
            let none: Vec<Vec3> = Vec::new();
            let fit_proxy_points = merge_fit_proxy_points(&proxies[f], &none);
            assert(proxies@[f as int]@ + Seq::<Vec3>::empty() =~= proxies@[f as int]@);
            let fit: Fit = fits[f];
            let p = Primitive {
                alive: true,
                version: 0,
                q: fit.q,
                prim: fit.prim,
                volume: fit.volume,
                weighted_volume: fit.weighted_volume,
                face_count: 1,
                vertex_indices,
                fit_vertex_indices,
                fit_proxy_points,
                neighbors,
            };
            proof {
                let i = f as u32;
                assert(rv.owner[i as int] == i);
                assert forall|x: u32| #[trigger] p@.vertices.contains(x) <==> surface.owns_vertex(rv, i, x) by {
                    if has_vertex(t, x) {
                        assert(rv.owner[i as int] == i && has_vertex(surface.tris[i as int], x));
                    }
                }
                assert forall|x: u32| #[trigger] p@.fit_vertices.contains(x) <==> surface.owns_fit_vertex(rv, i, x) by {
                    if has_vertex(t, x) && support@[f as int] {
                        assert(rv.owner[i as int] == i && has_vertex(surface.tris[i as int], x));
                    }
                }
                assert forall|j: u32| #[trigger] p@.neighbors.contains(j) <==> i != j && surface.touches(rv, i, j) by {
                    assert(p.neighbors@.contains(j) <==> adj.has(i, j));
                    if adj.has(i, j) {
                        let s = adj.neighbors@[i as int]@;
                        let k = choose|k: int| 0 <= k < s.len() && s[k] == j;
                        assert(adj.neighbors@[i as int]@[k] < adj.len());
                        assert(rv.owner[j as int] == j);
                        assert(surface.adj.has(i, j));
                        assert(!adj.has(i, i));
                    }
                }
            }
            prims.push(p);
            f += 1;
        }
        let res = MergeState {
            settings,
            prims,
            rings,
            queue: MergeQueue::new(),
            refused: HashSet::new(),
            alive_count: nf,
            merges_done: 0,
            merges_skipped_stale: 0,
            merges_rejected_empty: 0,
            merges_rejected_feasibility: 0,
            merges_rejected_outside: 0,
            all_pairs_used: false,
            surface: Ghost(surface),
            measured: Ghost(Seq::new(nf as nat, |i: int| Measured::spec_nothing())),
        };
        proof {
            res.rings.lemma_view();
            assert(res@.refused =~= Set::empty());
            assert forall|i: int| 0 <= i < nf implies (#[trigger] res@.prims[i]).alive && res@.prims[i].face_count == 1 by {
                assert(starts_as(prims@[i]@, fits@[i], proxies@[i]@));
            }
            lemma_all_alive(res@.prims);
            lemma_one_face_each(res@.prims);
            assert forall|i: u32| i < surface.len() implies surface.reflects(#[trigger] res@.prims[i as int], rv, i) by {
                assert(surface.reflects(prims@[i as int]@, rv, i));
            }
            assert forall|i: int| 0 <= i < res@.prims.len() implies 0 <= (#[trigger] res@.prims[i]).version
                <= res@.merges_done by {
                assert(starts_as(prims@[i]@, fits@[i], proxies@[i]@));
            }
        }
        res
    }

    /// The end of the merge: the primitives, the faces of each, and the
    /// counts.
    pub fn finish(self) -> (res: (Vec<Primitive>, FaceRings, MergeCounts))
        requires
            self.wf(),
        ensures
            views(res.0@) == self@.prims,
            all_wf(res.0@),
            res.1.wf(),
            res.1@ == self@.rings,
            res.2.merges_done == self@.merges_done,
            res.2.merges_skipped_stale == self@.merges_skipped_stale,
            res.2.merges_rejected_empty == self@.merges_rejected_empty,
            res.2.merges_rejected_feasibility == self@.merges_rejected_feasibility,
            res.2.merges_rejected_outside == self@.merges_rejected_outside,
            res.2.all_pairs_used == self@.all_pairs_used,
    {
        let counts = MergeCounts {
            merges_done: self.merges_done,
            merges_skipped_stale: self.merges_skipped_stale,
            merges_rejected_empty: self.merges_rejected_empty,
            merges_rejected_feasibility: self.merges_rejected_feasibility,
            merges_rejected_outside: self.merges_rejected_outside,
            all_pairs_used: self.all_pairs_used,
        };
        (self.prims, self.rings, counts)
    }

    /// The next thing to do: one turn of the merge loop, up to the point where
    /// geometry is needed.
    pub fn next(&mut self) -> (step: Step)
        requires
            old(self).wf(),
            old(self)@.merges_skipped_stale < usize::MAX,
            old(self)@.merges_rejected_empty < usize::MAX,
        ensures
            final(self).wf(),
            old(self)@.steps_to(step, final(self)@),
    {
        if self.alive_count <= self.settings.target {
            return Step::Done;
        }
        let ghost v = self@;
        let e: PqEntry = match self.queue.pop() {
            Some(e) => e,
            None => {
                assert(self@ == v);
                if self.all_pairs_used {
                    return Step::Done;
                }
                if self.settings.proximity {
                    return Step::PairNearby;
                }
                if self.settings.max_empty.is_some() {
                    return Step::Done;
                }
                return Step::PairAll;
            },
        };
        proof {
            assert(v.queue.contains(e));
            lemma_fewer_entries(v, self@);
        }
        let (a, b): (usize, usize) = (e.a as usize, e.b as usize);
        if !self.prims[a].alive || !self.prims[b].alive || self.prims[a].version != e.va || self.prims[b].version
            != e.vb {
            self.merges_skipped_stale = self.merges_skipped_stale + 1;
            assert(self@.refused =~= v.refused);
            proof {
                lemma_fewer_entries(v, self@);
            }
            return Step::Stale(e);
        }
        if self.settings.max_empty.is_some() {
            let code: u128 = self.code_of(&e);
            if self.refused.contains(&code) {
                self.merges_rejected_empty = self.merges_rejected_empty + 1;
                assert(self@.refused =~= v.refused);
                assert(v.refused.contains(pair_key(e)));
                proof {
                    lemma_fewer_entries(v, self@);
                }
                return Step::Remembered(e);
            }
            assert(!v.refused.contains(pair_key(e)));
        }
        assert(self@.refused =~= v.refused);
        Step::Candidate(e)
    }

    fn code_of(&self, e: &PqEntry) -> (code: u128)
        requires
            self@.inv(),
            e.a < self@.prims.len(),
            e.b < self@.prims.len(),
            !is_stale(self@.prims, *e),
        ensures
            code == pair_code(pair_key(*e)),
            small_versions(pair_key(*e)),
    {
        proof {
            assert(0 <= self@.prims[e.a as int].version <= self@.merges_done);
            assert(0 <= self@.prims[e.b as int].version <= self@.merges_done);
            lemma_pair_code(pair_key(*e), pair_key(*e));
        }
        let (lo, vlo, hi, vhi): (u32, u64, u32, u64) = if e.a < e.b {
            (e.a, e.va, e.b, e.vb)
        } else {
            (e.b, e.vb, e.a, e.va)
        };
        ((lo as u128 * 0x1_0000_0000u128 + vlo as u128) * 0x1_0000_0000u128 + hi as u128) * 0x1_0000_0000u128
            + vhi as u128
    }

    /// Queues a priced pair, with the present versions of its primitives,
    /// unless it costs more than the threshold.
    pub fn offer(&mut self, o: &Offer) -> (queued: bool)
        requires
            old(self).wf(),
            old(self)@.is_live_pair(o.a, o.b),
        ensures
            final(self).wf(),
            queued == !old(self)@.settings.volume_threshold.spec_lt(o.cost),
            final(self)@ == (if queued {
                MergeView { queue: old(self)@.queue.insert(old(self)@.entry(*o)), ..old(self)@ }
            } else {
                old(self)@
            }),
    {
        if o.cost.gt(self.settings.volume_threshold) {
            return false;
        }
        let ghost v = self@;
        let e = PqEntry {
            cost: o.cost,
            a: o.a,
            b: o.b,
            va: self.prims[o.a as usize].version,
            vb: self.prims[o.b as usize].version,
            prim: o.prim,
            volume: o.volume,
            weighted_volume: o.weighted_volume,
        };
        self.queue.push(e);
        proof {
            assert(e == v.entry(*o));
            assert(self@.refused =~= v.refused);
            let w = self@;
            assert forall|x: PqEntry| #[trigger] w.queue.contains(x) implies x.a != x.b && x.a < w.prims.len() && x.b
                < w.prims.len() by {
                if x != e {
                    assert(v.queue.contains(x));
                }
            }
        }
        true
    }

    /// The pairs asked for by [`Step::PairNearby`] or [`Step::PairAll`] have
    /// been offered; there is no second round of them.
    pub fn pairs_offered(&mut self)
        requires
            old(self).wf(),
        ensures
            final(self).wf(),
            final(self)@ == (MergeView { all_pairs_used: true, ..old(self)@ }),
    {
        let ghost v = self@;
        self.all_pairs_used = true;
        assert(self@.refused =~= v.refused);
    }

    /// Refuses a candidate of which more than the allowed fraction is open
    /// space, and remembers the refusal.
    pub fn refuse_empty(&mut self, e: &PqEntry, fraction: Scalar) -> (refused: bool)
        requires
            old(self).wf(),
            old(self)@.is_live_pair(e.a, e.b),
            !is_stale(old(self)@.prims, *e),
            old(self)@.merges_rejected_empty < usize::MAX,
        ensures
            final(self).wf(),
            refused == exceeds(fraction, old(self)@.settings.max_empty),
            final(self)@ == (if refused {
                MergeView {
                    refused: old(self)@.refused.insert(pair_key(*e)),
                    merges_rejected_empty: old(self)@.merges_rejected_empty + 1,
                    ..old(self)@
                }
            } else {
                old(self)@
            }),
    {
        let ghost v = self@;
        let refused: bool = match self.settings.max_empty {
            Some(max) => fraction.gt(max),
            None => false,
        };
        if refused {
            let code: u128 = self.code_of(e);
            self.refused.insert(code);
            self.merges_rejected_empty = self.merges_rejected_empty + 1;
            proof {
                let key = pair_key(*e);
                assert forall|k: (u32, int, u32, int)| self@.refused.contains(k) <==> #[trigger] v.refused.insert(
                    key,
                ).contains(k) by {
                    if small_versions(k) {
                        lemma_pair_code(k, key);
                    }
                }
                assert(self@.refused =~= v.refused.insert(key));
                lemma_fewer_entries(v, self@);
            }
        }
        refused
    }

    /// Refuses a candidate whose surface is too far from the mesh.
    pub fn refuse_distant(&mut self, distance: Scalar) -> (refused: bool)
        requires
            old(self).wf(),
            old(self)@.merges_rejected_feasibility < usize::MAX,
        ensures
            final(self).wf(),
            refused == exceeds(distance, old(self)@.settings.max_distance),
            final(self)@ == (if refused {
                MergeView {
                    merges_rejected_feasibility: old(self)@.merges_rejected_feasibility + 1,
                    ..old(self)@
                }
            } else {
                old(self)@
            }),
    {
        let ghost v = self@;
        let refused: bool = match self.settings.max_distance {
            Some(max) => distance.gt(max),
            None => false,
        };
        if refused {
            self.merges_rejected_feasibility = self.merges_rejected_feasibility + 1;
            assert(self@.refused =~= v.refused);
            proof {
                lemma_fewer_entries(v, self@);
            }
        }
        refused
    }

    /// Refuses a candidate that reaches too far outside the mesh.
    pub fn refuse_outside(&mut self, distance: Scalar) -> (refused: bool)
        requires
            old(self).wf(),
            old(self)@.merges_rejected_outside < usize::MAX,
        ensures
            final(self).wf(),
            refused == exceeds(distance, old(self)@.settings.max_outside),
            final(self)@ == (if refused {
                MergeView { merges_rejected_outside: old(self)@.merges_rejected_outside + 1, ..old(self)@ }
            } else {
                old(self)@
            }),
    {
        let ghost v = self@;
        let refused: bool = match self.settings.max_outside {
            Some(max) => distance.gt(max),
            None => false,
        };
        if refused {
            self.merges_rejected_outside = self.merges_rejected_outside + 1;
            assert(self@.refused =~= v.refused);
            proof {
                lemma_fewer_entries(v, self@);
            }
        }
        refused
    }

    /// What is to be measured of a candidate before it can be merged: first how
    /// much of it is open space, then how far it is from the mesh, then how far
    /// outside it, as far as there are limits.
    pub fn lacks(&self, m: &Measured) -> (what: Option<Measure>)
        ensures
            what == self@.settings.lacks(*m),
            what is None ==> (self@.settings.max_empty is Some ==> m.open_space is Some) && (
            self@.settings.max_distance is Some ==> m.distance is Some) && (self@.settings.max_outside is Some
                ==> m.outside is Some),
    {
        if self.settings.max_empty.is_some() && m.open_space.is_none() {
            Some(Measure::OpenSpace)
        } else if self.settings.max_distance.is_some() && m.distance.is_none() {
            Some(Measure::Distance)
        } else if self.settings.max_outside.is_some() && m.outside.is_none() {
            Some(Measure::Outside)
        } else {
            None
        }
    }

    /// Refuses a candidate whose measured value is above the limit.
    pub fn refuse(&mut self, e: &PqEntry, what: Measure, x: Scalar) -> (refused: bool)
        requires
            old(self).wf(),
            old(self)@.is_live_pair(e.a, e.b),
            !is_stale(old(self)@.prims, *e),
            old(self)@.merges_rejected_empty < usize::MAX,
            old(self)@.merges_rejected_feasibility < usize::MAX,
            old(self)@.merges_rejected_outside < usize::MAX,
        ensures
            final(self).wf(),
            refused == exceeds(x, old(self)@.settings.limit(what)),
            final(self)@ == (if refused {
                old(self)@.refusing(*e, what)
            } else {
                old(self)@
            }),
    {
        match what {
            Measure::OpenSpace => self.refuse_empty(e, x),
            Measure::Distance => self.refuse_distant(x),
            Measure::Outside => self.refuse_outside(x),
        }
    }

    /// Merges primitive `b` into `a` under the given shape, of which this was
    /// measured.
    pub fn commit(&mut self, a: u32, b: u32, fit: Fit, m: Measured)
        requires
            old(self).wf(),
            old(self)@.is_live_pair(a, b),
            old(self)@.settings.target < old(self)@.live(),
            old(self)@.settings.allows(m),
        ensures
            final(self).wf(),
            final(self)@ == old(self)@.committed(a, b, fit, m),
            final(self)@.live() + 1 == old(self)@.live(),
            final(self)@.prims[a as int].q == fit.q,
            final(self)@.prims[a as int].prim == fit.prim,
            final(self)@.prims[a as int].volume == fit.volume,
            final(self)@.prims[a as int].weighted_volume == fit.weighted_volume,
            final(self)@.prims[a as int].alive,
            final(self)@.prims[a as int].face_count == old(self)@.prims[a as int].face_count + old(
                self,
            )@.prims[b as int].face_count,
            !final(self)@.prims[b as int].alive,
            forall|x: u32| #[trigger]
                final(self)@.prims[a as int].vertices.contains(x) <==> old(self)@.prims[a as int].vertices.contains(x)
                    || old(self)@.prims[b as int].vertices.contains(x),
    {
        let ghost v = self@;
        proof {
            law_commit_keeps_invariant(v, a, b, fit, m);
            assert(v.surface.reflects(v.prims[a as int], v.rings, a));
            assert(v.surface.reflects(v.prims[b as int], v.rings, b));
            law_splice_keeps_partition(v.rings, a, b);
            let w = v.rings.spliced(a, b);
            lemma_distinct_bounded(w.ring[a as int], w.len());
            assert(v.prims[a as int].version <= v.merges_done);
            assert forall|n: u32| joint_neighbors(v.prims, a, b).contains(n) implies n < self.prims@.len() by {
                assert(v.prims[a as int].neighbors.contains(n) || v.prims[b as int].neighbors.contains(n));
                if v.prims[a as int].neighbors.contains(n) {
                    assert(v.surface.touches(v.rings, a, n));
                } else {
                    assert(v.surface.touches(v.rings, b, n));
                }
                assert(exists|g: u32| g < v.surface.len() && #[trigger] v.rings.owner[g as int] == n);
                let g = choose|g: u32| g < v.surface.len() && #[trigger] v.rings.owner[g as int] == n;
                assert(v.rings.is_root(v.rings.owner[g as int]));
            }
        }
        self.rings.splice(a, b);
        absorb(&mut self.prims, a, b, fit, true);
        self.alive_count = self.alive_count - 1;
        self.merges_done = self.merges_done + 1;
        self.measured = Ghost(self.measured@.update(a as int, m));
        assert(self@.refused =~= v.refused);
        assert(self@ == v.committed(a, b, fit, m));
        proof {
            crate::primitive::law_absorbing_takes_the_fit(v.prims, a, b, fit, true);
        }
    }

    /// The primitives to price against `a` after a merge: its neighbours, or,
    /// once all pairs have been used, every other live primitive. `None` says
    /// that they are to be looked for nearby.
    pub fn candidates(&self, a: u32) -> (list: Option<Vec<u32>>)
        requires
            self.wf(),
            a < self@.prims.len(),
        ensures
            match list {
                None => self@.all_pairs_used && self@.settings.proximity,
                Some(l) => {
                    &&& !(self@.all_pairs_used && self@.settings.proximity)
                    &&& is_set(l@)
                    &&& forall|n: u32| #[trigger]
                        l@.contains(n) <==> (if self@.all_pairs_used {
                            n < self@.prims.len() && n != a && self@.prims[n as int].alive
                        } else {
                            self@.prims[a as int].neighbors.contains(n)
                        })
                },
            },
    {
        if !self.all_pairs_used {
            let l = copy_list(&self.prims[a as usize].neighbors);
            assert forall|n: u32| #[trigger] l@.contains(n) <==> self@.prims[a as int].neighbors.contains(n) by {
                assert(self.prims@[a as int].neighbors@.contains(n) <==> self@.prims[a as int].neighbors.contains(n));
            }
            return Some(l);
        }
        if self.settings.proximity {
            return None;
        }
        let mut l = live_indices(&self.prims);
        set_remove(&mut l, a);
        Some(l)
    }

    /// The pairs of live primitives that are not neighbours, each once, in
    /// order.
    pub fn distant_pairs(&self) -> (pairs: Vec<(u32, u32)>)
        requires
            self.wf(),
        ensures
            pairs@.no_duplicates(),
            in_order(pairs@),
            forall|a: u32, b: u32| #[trigger]
                pairs@.contains((a, b)) <==> a < b && self@.is_live_pair(a, b)
                    && !self@.prims[a as int].neighbors.contains(b),
    {
        let live = live_indices(&self.prims);
        let mut pairs: Vec<(u32, u32)> = Vec::new();
        let mut i: usize = 0;
        while i < live.len()
            invariant
                self.wf(),
                is_set(live@),
                forall|n: u32| #[trigger] live@.contains(n) <==> n < self@.prims.len() && self@.prims[n as int].alive,
                i <= live@.len(),
                pairs@.no_duplicates(),
                in_order(pairs@),
                forall|a: u32, b: u32| #[trigger]
                    pairs@.contains((a, b)) <==> a < b && self@.is_live_pair(a, b)
                        && !self@.prims[a as int].neighbors.contains(b) && live@.subrange(0, i as int).contains(a),
            decreases live@.len() - i,
        {
            let a: u32 = live[i];
            assert(live@.contains(a));
            let ghost seen = live@.subrange(0, i as int);
            let ghost start = pairs@;
            assert(live@.subrange(0, i + 1) =~= seen.push(a));
            assert(!seen.contains(a)) by {
                if seen.contains(a) {
                    let k = choose|k: int| 0 <= k < seen.len() && seen[k] == a;
                    assert(live@[k] < live@[i as int]);
                }
            }
            assert forall|x: u32, b: u32| #[trigger] start.contains((x, b)) implies x < a by {
                let k = choose|k: int| 0 <= k < seen.len() && seen[k] == x;
                assert(live@[k] < live@[i as int]);
            }
            let mut j: usize = i + 1;
            while j < live.len()
                invariant
                    self.wf(),
                    is_set(live@),
                    forall|n: u32| #[trigger]
                        live@.contains(n) <==> n < self@.prims.len() && self@.prims[n as int].alive,
                    i < j <= live@.len(),
                    a == live@[i as int],
                    pairs@.no_duplicates(),
                    in_order(pairs@),
                    forall|x: u32, b: u32| #[trigger] start.contains((x, b)) ==> x < a,
                    forall|x: u32, b: u32| #[trigger]
                        pairs@.contains((x, b)) <==> start.contains((x, b)) || (x == a
                            && !self@.prims[a as int].neighbors.contains(b) && live@.subrange(
                            i + 1,
                            j as int,
                        ).contains(b)),
                decreases live@.len() - j,
            {
                let b: u32 = live[j];
                let ghost part = live@.subrange(i + 1, j as int);
                let ghost before = pairs@;
                assert(live@.contains(a) && live@.contains(b));
                assert(live@.subrange(i + 1, j + 1) =~= part.push(b));
                assert(!part.contains(b)) by {
                    if part.contains(b) {
                        let k = choose|k: int| 0 <= k < part.len() && part[k] == b;
                        assert(live@[i + 1 + k] < live@[j as int]);
                    }
                }
                assert(!before.contains((a, b)));
                assert forall|k: int| 0 <= k < before.len() implies (#[trigger] before[k]).0 < a || (before[k].0 == a
                    && before[k].1 < b) by {
                    let (x, y) = before[k];
                    assert(before.contains((x, y)));
                    if !start.contains((x, y)) {
                        let l = choose|l: int| 0 <= l < part.len() && part[l] == y;
                        assert(live@[i + 1 + l] < live@[j as int]);
                    }
                }
                let near: bool = set_contains(&self.prims[a as usize].neighbors, b);
                assert(near == self@.prims[a as int].neighbors.contains(b));
                if !near {
                    pairs.push((a, b));
                }
                proof {
                    assert forall|x: u32, y: u32| #[trigger] pairs@.contains((x, y)) <==> start.contains((x, y)) || (x
                        == a && !self@.prims[a as int].neighbors.contains(y) && live@.subrange(i + 1, j + 1).contains(
                        y,
                    )) by {
                        lemma_push_contains(before, (a, b), (x, y));
                        lemma_push_contains(part, b, y);
                        assert(before.contains((x, y)) <==> start.contains((x, y)) || (x == a
                            && !self@.prims[a as int].neighbors.contains(y) && part.contains(y)));
                    }
                }
                j += 1;
            }
            proof {
                let rest = live@.subrange(i + 1, j as int);
                assert forall|x: u32, b: u32| #[trigger] pairs@.contains((x, b)) <==> x < b && self@.is_live_pair(x, b)
                    && !self@.prims[x as int].neighbors.contains(b) && live@.subrange(0, i + 1).contains(x) by {
                    lemma_push_contains(seen, a, x);
                    assert(start.contains((x, b)) <==> x < b && self@.is_live_pair(x, b)
                        && !self@.prims[x as int].neighbors.contains(b) && seen.contains(x));
                    if rest.contains(b) {
                        let k = choose|k: int| 0 <= k < rest.len() && rest[k] == b;
                        assert(live@[i as int] < live@[i + 1 + k]);
                        assert(live@.contains(live@[i + 1 + k]));
                    }
                    if x == a && a < b && self@.is_live_pair(a, b) {
                        assert(live@.contains(b));
                        let k = choose|k: int| 0 <= k < live@.len() && live@[k] == b;
                        assert(k > i) by {
                            if k < i {
                                assert(live@[k] < live@[i as int]);
                            }
                        }
                        assert(rest[k - i - 1] == b);
                    }
                }
            }
            i += 1;
        }
        assert(live@.subrange(0, i as int) =~= live@);
        assert forall|a: u32, b: u32| #[trigger] pairs@.contains((a, b)) <==> a < b && self@.is_live_pair(a, b)
            && !self@.prims[a as int].neighbors.contains(b) by {
            if self@.is_live_pair(a, b) {
                assert(live@.contains(a));
            }
        }
        pairs
    }

    /// The live primitives, in order.
    pub fn live(&self) -> (list: Vec<u32>)
        requires
            self.wf(),
        ensures
            self@.lists_live(list@),
    {
        live_indices(&self.prims)
    }

    /// The pairs of live primitives that are not neighbours and one of which
    /// is among the `k` nearest of the other and within its reach, each once.
    /// Distances and cosines are asked for by the places of the primitives in
    /// the list of live ones.
    pub fn nearby_pairs<D: Fn(usize, usize) -> Scalar + Copy, C: Fn(usize, usize) -> Scalar + Copy>(
        &self,
        live: &Vec<u32>,
        dist: D,
        cos: C,
        k: usize,
        reach: Reach,
    ) -> (pairs: Vec<(u32, u32)>)
        requires
            self.wf(),
            self@.lists_live(live@),
            forall|i: usize, j: usize| i < live@.len() && j < live@.len() ==> #[trigger] dist.requires((i, j)),
            forall|i: usize, j: usize| i < live@.len() && j < live@.len() ==> #[trigger] cos.requires((i, j)),
            forall|i: usize, j: usize, x: Scalar| #[trigger] dist.ensures((i, j), x) ==> !x.spec_is_nan(),
        ensures
            pairs@.no_duplicates(),
            forall|d: spec_fn(usize, usize) -> Scalar, c: spec_fn(usize, usize) -> Scalar|
                #![trigger table_function(dist, d), table_function(cos, c)]
                table_function(dist, d) && table_function(cos, c) ==> forall|p: (u32, u32)| #[trigger]
                    pairs@.contains(p) <==> self@.is_nearby_pair(live@, d, c, k, reach, p),
    {
        let n: usize = live.len();
        let lists = all_near(n, dist, cos, k, reach);
        let mut set = PairSet::new();
        let mut i: usize = 0;
        while i < n
            invariant
                self.wf(),
                self@.lists_live(live@),
                n == live@.len(),
                lists@.len() == n,
                forall|y: int, x: int| 0 <= y < n && 0 <= x < lists@[y]@.len() ==> (#[trigger] lists@[y]@[x]) < n,
                i <= n,
                set.wf(),
                forall|p: (u32, u32)| #[trigger] set@.contains(p) <==> self@.paired_by(live@, lists@, i as int, 0, p),
            decreases n - i,
        {
            let a: u32 = live[i];
            assert(live@.contains(a));
            let mut x: usize = 0;
            while x < lists[i].len()
                invariant
                    self.wf(),
                    self@.lists_live(live@),
                    n == live@.len(),
                    lists@.len() == n,
                    forall|y: int, x: int| 0 <= y < n && 0 <= x < lists@[y]@.len() ==> (#[trigger] lists@[y]@[x]) < n,
                    i < n,
                    a == live@[i as int],
                    a < self@.prims.len(),
                    x <= lists@[i as int]@.len(),
                    set.wf(),
                    forall|p: (u32, u32)| #[trigger]
                        set@.contains(p) <==> self@.paired_by(live@, lists@, i as int, x as int, p),
                decreases lists@[i as int]@.len() - x,
            {
                let j: usize = lists[i][x];
                assert(lists@[i as int]@[x as int] == j);
                let b: u32 = live[j];
                assert(live@.contains(b));
                let ghost before = set@;
                let near_already: bool = set_contains(&self.prims[a as usize].neighbors, b);
                assert(near_already == self@.prims[a as int].neighbors.contains(b));
                if !near_already {
                    set.insert(a, b);
                }
                proof {
                    assert forall|p: (u32, u32)| #[trigger] set@.contains(p) <==> self@.paired_by(
                        live@,
                        lists@,
                        i as int,
                        x + 1,
                        p,
                    ) by {
                        lemma_push_contains(before, pair_of(a, b), p);
                        assert(before.contains(p) <==> self@.paired_by(live@, lists@, i as int, x as int, p));
                        self@.lemma_paired_step(live@, lists@, i as int, x as int, p);
                    }
                }
                x += 1;
            }
            proof {
                assert forall|p: (u32, u32)| #[trigger] set@.contains(p) <==> self@.paired_by(
                    live@,
                    lists@,
                    i + 1,
                    0,
                    p,
                ) by {
                    assert(set@.contains(p) <==> self@.paired_by(live@, lists@, i as int, x as int, p));
                    self@.lemma_paired_row(live@, lists@, i as int, p);
                }
            }
            i += 1;
        }
        let pairs = set.into_list();
        proof {
            let v = self@;
            assert forall|d: spec_fn(usize, usize) -> Scalar, c: spec_fn(usize, usize) -> Scalar|
                #![trigger table_function(dist, d), table_function(cos, c)]
                table_function(dist, d) && table_function(cos, c) implies forall|p: (u32, u32)| #[trigger]
                pairs@.contains(p) <==> v.is_nearby_pair(live@, d, c, k, reach, p) by {
                assert forall|p: (u32, u32)| #[trigger] pairs@.contains(p) <==> v.is_nearby_pair(
                    live@,
                    d,
                    c,
                    k,
                    reach,
                    p,
                ) by {
                    assert(pairs@.contains(p) <==> v.paired_by(live@, lists@, n as int, 0, p));
                    assert(live@.len() as usize == n);
                    assert forall|i: int| 0 <= i < n implies (#[trigger] lists@[i])@ == near(
                        table_row(d, n, i),
                        table_row(c, n, i),
                        i,
                        reach,
                        looked_at(n as int, k),
                    ) by {}
                    if v.paired_by(live@, lists@, n as int, 0, p) {
                        let (i, y) = choose|i: int, y: int|
                            0 <= i < lists@.len() && 0 <= y < lists@[i]@.len() && (i < n || (i == n && y < 0))
                                && v.is_pair(live@, i, #[trigger] lists@[i]@[y] as int, p);
                        let j = lists@[i]@[y];
                        assert(lists@[i]@.contains(j));
                        assert(near(table_row(d, n, i), table_row(c, n, i), i, reach, looked_at(n as int, k)).contains(
                            j,
                        ));
                    }
                    if v.is_nearby_pair(live@, d, c, k, reach, p) {
                        let (i, j) = choose|i: int, j: usize|
                            0 <= i < n && #[trigger] near(
                                table_row(d, n, i),
                                table_row(c, n, i),
                                i,
                                reach,
                                looked_at(n as int, k),
                            ).contains(j) && v.is_pair(live@, i, j as int, p);
                        assert(lists@[i]@.contains(j));
                        let y = choose|y: int| 0 <= y < lists@[i]@.len() && lists@[i]@[y] == j;
                        assert(v.is_pair(live@, i, lists@[i]@[y] as int, p));
                    }
                }
            }
        }
        pairs
    }

    /// The live primitives near the one at place `at` of the list, nearest
    /// first: of its `k` nearest others those within its reach.
    pub fn nearby_partners<D: Fn(usize) -> Scalar + Copy, C: Fn(usize) -> Scalar + Copy>(
        &self,
        live: &Vec<u32>,
        at: usize,
        dist: D,
        cos: C,
        k: usize,
        reach: Reach,
    ) -> (partners: Vec<u32>)
        requires
            self.wf(),
            self@.lists_live(live@),
            at < live@.len(),
            forall|j: usize| j < live@.len() ==> #[trigger] dist.requires((j,)),
            forall|j: usize| j < live@.len() ==> #[trigger] cos.requires((j,)),
            forall|j: usize, x: Scalar| #[trigger] dist.ensures((j,), x) ==> !x.spec_is_nan(),
        ensures
            forall|row: Seq<Scalar>, cosines: Seq<Scalar>|
                #![trigger gives_row(dist, row), gives_row(cos, cosines)]
                row.len() == live@.len() && cosines.len() == live@.len() && gives_row(dist, row) && gives_row(
                    cos,
                    cosines,
                ) ==> partners@ == at_places(
                    live@,
                    near(row, cosines, at as int, reach, looked_at(live@.len() as int, k)),
                ),
            forall|x: int|
                0 <= x < partners@.len() ==> self@.is_live_pair(live@[at as int], #[trigger] partners@[x]),
    {
        let places = nearest_within(at, live.len(), dist, cos, k, reach);
        assert(live@.contains(live@[at as int]));
        let mut partners: Vec<u32> = Vec::new();
        let mut x: usize = 0;
        while x < places.len()
            invariant
                self.wf(),
                self@.lists_live(live@),
                at < live@.len(),
                live@.contains(live@[at as int]),
                forall|y: int| 0 <= y < places@.len() ==> (#[trigger] places@[y]) < live@.len() && places@[y] != at,
                x <= places@.len(),
                partners@ == at_places(live@, places@.subrange(0, x as int)),
                forall|y: int|
                    0 <= y < partners@.len() ==> self@.is_live_pair(live@[at as int], #[trigger] partners@[y]),
            decreases places@.len() - x,
        {
            let j: usize = places[x];
            assert(live@.contains(live@[j as int]));
            partners.push(live[j]);
            x += 1;
        }
        assert(places@.subrange(0, x as int) =~= places@);
        partners
    }

    /// How many primitives are alive.
    pub fn alive_count(&self) -> (n: usize)
        requires
            self.wf(),
        ensures
            n == self@.live(),
    {
        self.alive_count
    }

    /// The primitives.
    pub fn primitives(&self) -> (prims: &Vec<Primitive>)
        requires
            self.wf(),
        ensures
            views(prims@) == self@.prims,
            all_wf(prims@),
    {
        &self.prims
    }

    /// The faces of live primitive `p`.
    pub fn faces(&self, p: u32) -> (faces: Vec<u32>)
        requires
            self.wf(),
            p < self@.prims.len(),
            self@.prims[p as int].alive,
        ensures
            faces@ == self@.rings.ring[p as int],
    {
        assert(self@.surface.reflects(self@.prims[p as int], self@.rings, p));
        self.rings.faces(p, self.prims[p as usize].face_count)
    }
}

/// A primitive as it stands before any merge: alive, of version zero, with
/// its fit and its proxy points.
pub open spec fn starts_as(p: PrimView, fit: Fit, proxies: Seq<Vec3>) -> bool {
    &&& p.alive
    &&& p.version == 0
    &&& p.face_count == 1
    &&& p.q == fit.q
    &&& p.prim == fit.prim
    &&& p.volume == fit.volume
    &&& p.weighted_volume == fit.weighted_volume
    &&& p.proxies == proxies
    &&& is_set(p.vertices)
    &&& is_set(p.fit_vertices)
}

proof fn lemma_all_alive(ps: Seq<PrimView>)
    requires
        forall|i: int| 0 <= i < ps.len() ==> (#[trigger] ps[i]).alive,
    ensures
        live_count(ps) == ps.len(),
    decreases ps.len(),
{
    if ps.len() > 0 {
        lemma_all_alive(ps.drop_last());
    }
}

proof fn lemma_one_face_each(ps: Seq<PrimView>)
    requires
        forall|i: int| 0 <= i < ps.len() ==> (#[trigger] ps[i]).face_count == 1,
    ensures
        face_total(ps) == ps.len(),
    decreases ps.len(),
{
    if ps.len() > 0 {
        lemma_one_face_each(ps.drop_last());
    }
}

/// What a merge did.
#[derive(Clone, Copy, Debug, PartialEq, Eq, Structural)]
pub struct MergeCounts {
    pub merges_done: usize,
    pub merges_skipped_stale: usize,
    pub merges_rejected_empty: usize,
    pub merges_rejected_feasibility: usize,
    pub merges_rejected_outside: usize,
    pub all_pairs_used: bool,
}

/// The pairs of a face with those of its listed neighbours that come after it,
/// as they are listed.
pub open spec fn later_neighbors(f: u32, list: Seq<u32>) -> Seq<(u32, u32)>
    decreases list.len(),
{
    if list.len() == 0 {
        Seq::empty()
    } else if list.last() > f {
        later_neighbors(f, list.drop_last()).push((f, list.last()))
    } else {
        later_neighbors(f, list.drop_last())
    }
}

/// Those of all faces before `n`, one face after the other.
pub open spec fn pairs_before(adj: Adjacency, n: int) -> Seq<(u32, u32)>
    decreases n,
{
    if n <= 0 {
        Seq::empty()
    } else {
        pairs_before(adj, n - 1) + later_neighbors((n - 1) as u32, adj.neighbors@[n - 1]@)
    }
}

/// The pairs priced before the first merge: each pair of neighbouring faces
/// once, lower face first.
pub fn initial_pairs(adj: &Adjacency) -> (pairs: Vec<(u32, u32)>)
    requires
        adj.wf(),
    ensures
        pairs@ == pairs_before(*adj, adj.len() as int),
        pairs@.no_duplicates(),
        forall|f: u32, n: u32| #[trigger] pairs@.contains((f, n)) <==> f < n && f < adj.len() && adj.has(f, n),
{
    let mut pairs: Vec<(u32, u32)> = Vec::new();
    let nf: usize = adj.neighbors.len();
    let mut f: usize = 0;
    while f < nf
        invariant
            adj.wf(),
            nf == adj.len(),
            f <= nf,
            pairs@ == pairs_before(*adj, f as int),
            pairs@.no_duplicates(),
            forall|g: u32, n: u32| #[trigger] pairs@.contains((g, n)) <==> g < n && g < f && adj.has(g, n),
        decreases nf - f,
    {
        let ghost start = pairs@;
        let me: u32 = f as u32;
        let mut i: usize = 0;
        while i < adj.neighbors[f].len()
            invariant
                adj.wf(),
                f < adj.len(),
                me == f,
                pairs@ == start + later_neighbors(me, adj.neighbors@[f as int]@.subrange(0, i as int)),
                i <= adj.neighbors@[f as int]@.len(),
                pairs@.no_duplicates(),
                forall|g: u32, n: u32| #[trigger] start.contains((g, n)) ==> g < f,
                forall|g: u32, n: u32| #[trigger]
                    pairs@.contains((g, n)) <==> start.contains((g, n)) || (g == me && me < n
                        && adj.neighbors@[f as int]@.subrange(0, i as int).contains(n)),
            decreases adj.neighbors@[f as int]@.len() - i,
        {
            let ghost list = adj.neighbors@[f as int]@;
            let ghost seen = list.subrange(0, i as int);
            let ghost before = pairs@;
            let n: u32 = adj.neighbors[f][i];
            assert(list.subrange(0, i + 1) =~= seen.push(n));
            assert(seen.push(n).drop_last() =~= seen);
            assert(!seen.contains(n)) by {
                if seen.contains(n) {
                    let k = choose|k: int| 0 <= k < seen.len() && seen[k] == n;
                    assert(list[k] == list[i as int]);
                }
            }
            assert(!before.contains((me, n)));
            if n > me {
                pairs.push((me, n));
            }
            proof {
                assert forall|g: u32, x: u32| #[trigger] pairs@.contains((g, x)) <==> start.contains((g, x)) || (g == me
                    && me < x && list.subrange(0, i + 1).contains(x)) by {
                    lemma_push_contains(before, (me, n), (g, x));
                    lemma_push_contains(seen, n, x);
                    assert(before.contains((g, x)) <==> start.contains((g, x)) || (g == me && me < x
                        && seen.contains(x)));
                }
            }
            i += 1;
        }
        proof {
            let list = adj.neighbors@[f as int]@;
            assert(list.subrange(0, i as int) =~= list);
            assert forall|g: u32, n: u32| #[trigger] pairs@.contains((g, n)) <==> g < n && g < f + 1 && adj.has(g, n) by {
                assert(start.contains((g, n)) <==> g < n && g < f && adj.has(g, n));
            }
        }
        f += 1;
    }
    pairs
}

/// At first a primitive is alive, of one face, and has the shape that was
/// fitted to that face.
pub proof fn law_primitives_start_as_faces(p: PrimView, fit: Fit, proxies: Seq<Vec3>)
    requires
        starts_as(p, fit, proxies),
    ensures
        p.alive,
        p.version == 0,
        p.face_count == 1,
        p.prim == fit.prim,
        p.q == fit.q,
        p.volume == fit.volume,
        p.weighted_volume == fit.weighted_volume,
        p.proxies == proxies,
{
}

/// The first pairs come from the lower face to the higher, one face after the
/// other.
pub proof fn law_first_pairs_come_in_order(adj: Adjacency, n: int, i: int, j: int)
    requires
        0 <= n <= u32::MAX,
        0 <= i < j < pairs_before(adj, n).len(),
    ensures
        pairs_before(adj, n)[i].0 < pairs_before(adj, n)[i].1,
        pairs_before(adj, n)[j].0 < pairs_before(adj, n)[j].1,
        pairs_before(adj, n)[i].0 <= pairs_before(adj, n)[j].0,
        pairs_before(adj, n)[j].0 < n,
    decreases n,
{
    if n > 0 {
        let before = pairs_before(adj, n - 1);
        let last = later_neighbors((n - 1) as u32, adj.neighbors@[n - 1]@);
        lemma_later_neighbors((n - 1) as u32, adj.neighbors@[n - 1]@);
        if j < before.len() {
            law_first_pairs_come_in_order(adj, n - 1, i, j);
        } else {
            assert((before + last)[j] == last[j - before.len()]);
            if i < before.len() {
                lemma_first_pairs_below(adj, n - 1, i);
            } else {
                assert((before + last)[i] == last[i - before.len()]);
            }
        }
    }
}

proof fn lemma_later_neighbors(f: u32, list: Seq<u32>)
    ensures
        forall|i: int|
            0 <= i < later_neighbors(f, list).len() ==> (#[trigger] later_neighbors(f, list)[i]).0 == f && f
                < later_neighbors(f, list)[i].1,
    decreases list.len(),
{
    if list.len() > 0 {
        lemma_later_neighbors(f, list.drop_last());
        let before = later_neighbors(f, list.drop_last());
        let all = later_neighbors(f, list);
        assert forall|i: int| 0 <= i < all.len() implies (#[trigger] all[i]).0 == f && f < all[i].1 by {
            if i < before.len() {
                assert(all[i] == before[i]);
            }
        }
    }
}

proof fn lemma_first_pairs_below(adj: Adjacency, n: int, i: int)
    requires
        0 <= n <= u32::MAX,
        0 <= i < pairs_before(adj, n).len(),
    ensures
        pairs_before(adj, n)[i].0 < n,
        pairs_before(adj, n)[i].0 < pairs_before(adj, n)[i].1,
    decreases n,
{
    if n > 0 {
        let before = pairs_before(adj, n - 1);
        let last = later_neighbors((n - 1) as u32, adj.neighbors@[n - 1]@);
        lemma_later_neighbors((n - 1) as u32, adj.neighbors@[n - 1]@);
        if i < before.len() {
            lemma_first_pairs_below(adj, n - 1, i);
        } else {
            assert((before + last)[i] == last[i - before.len()]);
        }
    }
}

/// A nearby pair is one of two live primitives that do not touch, the lower one
/// first.
pub proof fn law_nearby_pairs_do_not_touch(v: MergeView, live: Seq<u32>, i: int, j: int, p: (u32, u32))
    requires
        v.is_pair(live, i, j, p),
    ensures
        !v.prims[live[i] as int].neighbors.contains(live[j]),
        p.0 <= p.1,
        (p.0 == live[i] && p.1 == live[j]) || (p.0 == live[j] && p.1 == live[i]),
{
}

/// The partners at these places are those of the list, in the order of the
/// places.
pub proof fn law_partners_at_places(list: Seq<u32>, places: Seq<usize>, x: int)
    requires
        0 <= x < places.len(),
    ensures
        at_places(list, places).len() == places.len(),
        at_places(list, places)[x] == list[places[x] as int],
{
}

/// The list of live primitives has each of them once, in their order, and no
/// dead one.
pub proof fn law_live_list_is_complete(v: MergeView, live: Seq<u32>, n: u32, i: int, j: int)
    requires
        v.lists_live(live),
    ensures
        n < v.prims.len() && v.prims[n as int].alive ==> live.contains(n),
        0 <= i < live.len() ==> live[i] < v.prims.len() && v.prims[live[i] as int].alive,
        0 <= i < j < live.len() ==> live[i] < live[j],
{
    if 0 <= i < live.len() {
        assert(live.contains(live[i]));
    }
}

} // verus!
