//! A tree of bounding boxes over the triangles of a mesh.
//!
//! The tree is cut in two at planes that the caller supplies, and searched by
//! distances and ray tests that the caller supplies; what is decided here is
//! which faces are under which node, and which nodes a search may pass over.

use crate::prim::Vec3;
use crate::scalar::Scalar;
use crate::sets::lemma_push_contains;
use vstd::prelude::*;
use vstd::seq_lib::{to_multiset_contains, to_multiset_update};

verus! {

/// A node: a box, and either a run of faces or two children.
#[derive(Clone, Copy)]
pub struct Node {
    pub aabb_min: Vec3,
    pub aabb_max: Vec3,
    /// The first face of a leaf, or the left child.
    pub a: u32,
    /// How many faces a leaf has; 0 for an inner node.
    pub count: u32,
    /// The right child of an inner node.
    pub b: u32,
}

/// A leaf has at most this many faces.
pub const LEAF_FACES: usize = 4;

/// The axis along which a box of these lengths is cut: the longest, the first
/// of equal ones.
pub open spec fn spec_longest_axis(ext: Vec3) -> int {
    if ext[1].spec_le(ext[0]) && ext[2].spec_le(ext[0]) {
        0
    } else if ext[2].spec_le(ext[1]) {
        1
    } else {
        2
    }
}

/// Finds the axis along which a box is cut.
pub fn longest_axis(ext: Vec3) -> (axis: usize)
    ensures
        axis == spec_longest_axis(ext),
        axis < 3,
{
    if ext[0].ge(ext[1]) && ext[0].ge(ext[2]) {
        0
    } else if ext[1].ge(ext[2]) {
        1
    } else {
        2
    }
}

/// Among numbers, no side is longer than the one that is cut, and those before
/// it are shorter.
pub proof fn law_longest_axis_is_longest(ext: Vec3, k: int)
    requires
        0 <= k < 3,
        forall|i: int| 0 <= i < 3 ==> !(#[trigger] ext[i]).spec_is_nan(),
    ensures
        ext[k].spec_le(ext[spec_longest_axis(ext)]),
        k < spec_longest_axis(ext) ==> ext[k].spec_lt(ext[spec_longest_axis(ext)]),
{
    assert(!ext[0].spec_is_nan() && !ext[1].spec_is_nan() && !ext[2].spec_is_nan());
}

/// `lo` is the least of the values of the faces along axis `k`, or infinity.
pub open spec fn is_lower(lo: Scalar, values: Seq<Vec3>, faces: Seq<u32>, k: int) -> bool {
    &&& forall|i: int| 0 <= i < faces.len() ==> !(values[#[trigger] faces[i] as int][k].spec_lt(lo))
    &&& lo == (Scalar { bits: 0x7f80_0000 }) || exists|i: int|
        0 <= i < faces.len() && lo == values[#[trigger] faces[i] as int][k]
}

/// `hi` is the greatest of the values of the faces along axis `k`, or minus
/// infinity.
pub open spec fn is_upper(hi: Scalar, values: Seq<Vec3>, faces: Seq<u32>, k: int) -> bool {
    &&& forall|i: int| 0 <= i < faces.len() ==> !(hi.spec_lt(values[#[trigger] faces[i] as int][k]))
    &&& hi == (Scalar { bits: 0xff80_0000 }) || exists|i: int|
        0 <= i < faces.len() && hi == values[#[trigger] faces[i] as int][k]
}

/// The box spans the boxes of the faces.
pub open spec fn bounds(lo: Vec3, hi: Vec3, mins: Seq<Vec3>, maxs: Seq<Vec3>, faces: Seq<u32>) -> bool {
    &&& is_lower(lo[0], mins, faces, 0) && is_upper(hi[0], maxs, faces, 0)
    &&& is_lower(lo[1], mins, faces, 1) && is_upper(hi[1], maxs, faces, 1)
    &&& is_lower(lo[2], mins, faces, 2) && is_upper(hi[2], maxs, faces, 2)
}

/// All the faces lie before the plane, or, without `yes`, none of them does.
pub open spec fn all_before(centroids: Seq<Vec3>, faces: Seq<u32>, axis: usize, mid: Scalar, yes: bool) -> bool {
    forall|i: int|
        0 <= i < faces.len() ==> centroids[#[trigger] faces[i] as int][axis as int].spec_lt(mid) == yes
}

/// The list is cut in two at the plane: the first part lies before it, the
/// second does not. Where that would leave one part empty, it is cut in the
/// middle.
pub open spec fn cut_at(centroids: Seq<Vec3>, first: Seq<u32>, second: Seq<u32>, axis: usize, mid: Scalar) -> bool {
    let in_the_middle = first.len() == (first.len() + second.len()) / 2;
    ||| all_before(centroids, first, axis, mid, true) && all_before(centroids, second, axis, mid, false)
    ||| in_the_middle && all_before(centroids, first, axis, mid, true) && all_before(centroids, second, axis, mid, true)
    ||| in_the_middle && all_before(centroids, first, axis, mid, false) && all_before(
        centroids,
        second,
        axis,
        mid,
        false,
    )
}

/// The faces, the boxes round each of them, and the nodes over them. `splits`
/// says at which place the children of an inner node share out its faces.
pub struct TreeView {
    pub nodes: Seq<Node>,
    pub splits: Seq<int>,
    pub faces: Seq<u32>,
    pub mins: Seq<Vec3>,
    pub maxs: Seq<Vec3>,
    pub centroids: Seq<Vec3>,
}

impl TreeView {
    /// Node `idx` is the root of a tree over the faces at places `s` to `e`:
    /// its box spans theirs, and it is a leaf that holds them, or its children
    /// share them out.
    pub open spec fn tree(self, idx: int, s: int, e: int) -> bool
        decreases e - s,
    {
        &&& 0 <= idx < self.nodes.len()
        &&& 0 <= s < e <= self.faces.len()
        &&& bounds(
            self.nodes[idx].aabb_min,
            self.nodes[idx].aabb_max,
            self.mins,
            self.maxs,
            self.faces.subrange(s, e),
        )
        &&& if self.nodes[idx].count > 0 {
            self.nodes[idx].a == s && self.nodes[idx].count == e - s && e - s <= 4
        } else {
            &&& s < self.splits[idx] < e
            &&& idx < self.nodes[idx].a
            &&& idx < self.nodes[idx].b
            &&& self.tree(self.nodes[idx].a as int, s, self.splits[idx])
            &&& self.tree(self.nodes[idx].b as int, self.splits[idx], e)
        }
    }
}

proof fn lemma_bounds_same_members(lo: Vec3, hi: Vec3, mins: Seq<Vec3>, maxs: Seq<Vec3>, f: Seq<u32>, g: Seq<u32>)
    requires
        bounds(lo, hi, mins, maxs, f),
        forall|x: u32| #[trigger] f.contains(x) <==> g.contains(x),
    ensures
        bounds(lo, hi, mins, maxs, g),
{
    lemma_axis_same_members(lo[0], hi[0], mins, maxs, f, g, 0);
    lemma_axis_same_members(lo[1], hi[1], mins, maxs, f, g, 1);
    lemma_axis_same_members(lo[2], hi[2], mins, maxs, f, g, 2);
}

proof fn lemma_axis_same_members(
    lo: Scalar,
    hi: Scalar,
    mins: Seq<Vec3>,
    maxs: Seq<Vec3>,
    f: Seq<u32>,
    g: Seq<u32>,
    k: int,
)
    requires
        is_lower(lo, mins, f, k),
        is_upper(hi, maxs, f, k),
        forall|x: u32| #[trigger] f.contains(x) <==> g.contains(x),
    ensures
        is_lower(lo, mins, g, k),
        is_upper(hi, maxs, g, k),
{
    assert forall|i: int| 0 <= i < g.len() implies !(mins[#[trigger] g[i] as int][k].spec_lt(lo)) && !(hi.spec_lt(
        maxs[g[i] as int][k],
    )) by {
        assert(g.contains(g[i]));
        assert(f.contains(g[i]));
        let j = choose|j: int| 0 <= j < f.len() && f[j] == g[i];
        assert(!(mins[f[j] as int][k].spec_lt(lo)));
        assert(!(hi.spec_lt(maxs[f[j] as int][k])));
    }
    if lo != (Scalar { bits: 0x7f80_0000 }) {
        let i = choose|i: int| 0 <= i < f.len() && lo == mins[#[trigger] f[i] as int][k];
        assert(f.contains(f[i]));
        assert(g.contains(f[i]));
        let j = choose|j: int| 0 <= j < g.len() && g[j] == f[i];
        assert(lo == mins[g[j] as int][k]);
    }
    if hi != (Scalar { bits: 0xff80_0000 }) {
        let i = choose|i: int| 0 <= i < f.len() && hi == maxs[#[trigger] f[i] as int][k];
        assert(f.contains(f[i]));
        assert(g.contains(f[i]));
        let j = choose|j: int| 0 <= j < g.len() && g[j] == f[i];
        assert(hi == maxs[g[j] as int][k]);
    }
}

/// A tree stays one where nodes after it are added and faces outside its run
/// are moved.
proof fn lemma_tree_frame(v: TreeView, w: TreeView, idx: int, s: int, e: int)
    requires
        v.tree(idx, s, e),
        v.splits.len() == v.nodes.len(),
        w.splits.len() == w.nodes.len(),
        w.nodes.len() >= v.nodes.len(),
        forall|i: int| idx <= i < v.nodes.len() ==> #[trigger] w.nodes[i] == v.nodes[i],
        forall|i: int| idx <= i < v.nodes.len() ==> #[trigger] w.splits[i] == v.splits[i],
        w.mins == v.mins,
        w.maxs == v.maxs,
        w.faces.len() == v.faces.len(),
        forall|i: int| s <= i < e ==> #[trigger] w.faces[i] == v.faces[i],
    ensures
        w.tree(idx, s, e),
    decreases e - s,
{
    assert(w.nodes[idx] == v.nodes[idx]);
    assert(w.splits[idx] == v.splits[idx]);
    assert(w.faces.subrange(s, e) =~= v.faces.subrange(s, e));
    if v.nodes[idx].count == 0 {
        let m = v.splits[idx];
        lemma_tree_frame(v, w, v.nodes[idx].a as int, s, m);
        lemma_tree_frame(v, w, v.nodes[idx].b as int, m, e);
    }
}

proof fn lemma_swap_multiset(s: Seq<u32>, i: int, j: int)
    requires
        0 <= i < s.len(),
        0 <= j < s.len(),
    ensures
        s.update(i, s[j]).update(j, s[i]).to_multiset() == s.to_multiset(),
{
    let t = s.update(i, s[j]);
    to_multiset_update(s, i, s[j]);
    to_multiset_update(t, j, s[i]);
    to_multiset_contains(s, s[i]);
    to_multiset_contains(s, s[j]);
    if i == j {
        assert(t.update(j, s[i]) =~= s);
    } else {
        assert(t[j] == s[j]);
        assert(s.to_multiset().insert(s[j]).remove(s[i]).insert(s[i]).remove(s[j]) =~= s.to_multiset());
    }
}

/// The run from `s` to `e` holds the same faces, what is outside it is as
/// before.
pub open spec fn reordered(f: Seq<u32>, g: Seq<u32>, s: int, e: int) -> bool {
    &&& f.len() == g.len()
    &&& forall|i: int| 0 <= i < f.len() && !(s <= i < e) ==> #[trigger] g[i] == f[i]
    &&& g.subrange(s, e).to_multiset() == f.subrange(s, e).to_multiset()
}

proof fn lemma_reordered_members(f: Seq<u32>, g: Seq<u32>, s: int, e: int)
    requires
        reordered(f, g, s, e),
        0 <= s <= e <= f.len(),
    ensures
        forall|x: u32| #[trigger] f.subrange(s, e).contains(x) <==> g.subrange(s, e).contains(x),
{
    assert forall|x: u32| #[trigger] f.subrange(s, e).contains(x) <==> g.subrange(s, e).contains(x) by {
        to_multiset_contains(f.subrange(s, e), x);
        to_multiset_contains(g.subrange(s, e), x);
    }
}

proof fn lemma_reordered_widen(f: Seq<u32>, g: Seq<u32>, s: int, e: int, s2: int, e2: int)
    requires
        reordered(f, g, s, e),
        0 <= s2 <= s <= e <= e2 <= f.len(),
    ensures
        reordered(f, g, s2, e2),
{
    let (fa, fb, fc) = (f.subrange(s2, s), f.subrange(s, e), f.subrange(e, e2));
    let (ga, gb, gc) = (g.subrange(s2, s), g.subrange(s, e), g.subrange(e, e2));
    assert(fa =~= ga && fc =~= gc);
    assert(f.subrange(s2, e2) =~= fa + fb + fc);
    assert(g.subrange(s2, e2) =~= ga + gb + gc);
    vstd::seq_lib::lemma_multiset_commutative(fa, fb);
    vstd::seq_lib::lemma_multiset_commutative(fa + fb, fc);
    vstd::seq_lib::lemma_multiset_commutative(ga, gb);
    vstd::seq_lib::lemma_multiset_commutative(ga + gb, gc);
}

/// Every inner node of the tree is cut at the plane that `plane` gives for its
/// box.
pub open spec fn planned<F: Fn(Vec3, Vec3) -> (usize, Scalar)>(v: TreeView, plane: F, idx: int, s: int, e: int) -> bool
    decreases e - s,
{
    if v.nodes[idx].count > 0 {
        true
    } else {
        &&& s < v.splits[idx] < e
        &&& cut_somewhere(v, plane, idx, s, e)
        &&& planned(v, plane, v.nodes[idx].a as int, s, v.splits[idx])
        &&& planned(v, plane, v.nodes[idx].b as int, v.splits[idx], e)
    }
}

/// The faces of an inner node are cut at the plane given for its box.
pub open spec fn cut_somewhere<F: Fn(Vec3, Vec3) -> (usize, Scalar)>(v: TreeView, plane: F, idx: int, s: int, e: int) -> bool {
    exists|p: (usize, Scalar)| #[trigger]
        plane.ensures((v.nodes[idx].aabb_min, v.nodes[idx].aabb_max), p) && cut_at(
            v.centroids,
            v.faces.subrange(s, v.splits[idx]),
            v.faces.subrange(v.splits[idx], e),
            p.0,
            p.1,
        )
}

proof fn lemma_planned_frame<F: Fn(Vec3, Vec3) -> (usize, Scalar)>(
    v: TreeView,
    w: TreeView,
    plane: F,
    idx: int,
    s: int,
    e: int,
)
    requires
        v.tree(idx, s, e),
        planned(v, plane, idx, s, e),
        v.splits.len() == v.nodes.len(),
        w.splits.len() == w.nodes.len(),
        w.nodes.len() >= v.nodes.len(),
        forall|i: int| idx <= i < v.nodes.len() ==> #[trigger] w.nodes[i] == v.nodes[i],
        forall|i: int| idx <= i < v.nodes.len() ==> #[trigger] w.splits[i] == v.splits[i],
        w.centroids == v.centroids,
        w.faces.len() == v.faces.len(),
        forall|i: int| s <= i < e ==> #[trigger] w.faces[i] == v.faces[i],
    ensures
        planned(w, plane, idx, s, e),
    decreases e - s,
{
    assert(w.nodes[idx] == v.nodes[idx]);
    assert(w.splits[idx] == v.splits[idx]);
    if v.nodes[idx].count == 0 {
        let m = v.splits[idx];
        assert(w.faces.subrange(s, m) =~= v.faces.subrange(s, m));
        assert(w.faces.subrange(m, e) =~= v.faces.subrange(m, e));
        lemma_planned_frame(v, w, plane, v.nodes[idx].a as int, s, m);
        lemma_planned_frame(v, w, plane, v.nodes[idx].b as int, m, e);
        let p = choose|p: (usize, Scalar)| #[trigger]
            plane.ensures((v.nodes[idx].aabb_min, v.nodes[idx].aabb_max), p) && cut_at(
                v.centroids,
                v.faces.subrange(s, m),
                v.faces.subrange(m, e),
                p.0,
                p.1,
            );
        assert(plane.ensures((w.nodes[idx].aabb_min, w.nodes[idx].aabb_max), p));
        assert(cut_somewhere(w, plane, idx, s, e));
    }
}

proof fn lemma_cut_same_members(
    centroids: Seq<Vec3>,
    a: Seq<u32>,
    b: Seq<u32>,
    c: Seq<u32>,
    d: Seq<u32>,
    axis: usize,
    mid: Scalar,
)
    requires
        cut_at(centroids, a, b, axis, mid),
        a.len() == c.len(),
        b.len() == d.len(),
        forall|x: u32| #[trigger] a.contains(x) <==> c.contains(x),
        forall|x: u32| #[trigger] b.contains(x) <==> d.contains(x),
    ensures
        cut_at(centroids, c, d, axis, mid),
{
    lemma_all_before_same_members(centroids, a, c, axis, mid);
    lemma_all_before_same_members(centroids, b, d, axis, mid);
}

proof fn lemma_all_before_same_members(centroids: Seq<Vec3>, a: Seq<u32>, c: Seq<u32>, axis: usize, mid: Scalar)
    requires
        forall|x: u32| #[trigger] a.contains(x) <==> c.contains(x),
    ensures
        forall|yes: bool| #[trigger]
            all_before(centroids, a, axis, mid, yes) ==> all_before(centroids, c, axis, mid, yes),
{
    assert forall|yes: bool| #[trigger] all_before(centroids, a, axis, mid, yes) implies all_before(
        centroids,
        c,
        axis,
        mid,
        yes,
    ) by {
        assert forall|i: int| 0 <= i < c.len() implies centroids[#[trigger] c[i] as int][axis as int].spec_lt(mid) == yes by {
            assert(c.contains(c[i]));
            assert(a.contains(c[i]));
            let j = choose|j: int| 0 <= j < a.len() && a[j] == c[i];
            assert(centroids[a[j] as int][axis as int].spec_lt(mid) == yes);
        }
    }
}

/// A tree of bounding boxes.
pub struct Bvh {
    nodes: Vec<Node>,
    face_indices: Vec<u32>,
    mins: Vec<Vec3>,
    maxs: Vec<Vec3>,
    centroids: Vec<Vec3>,
    splits: Ghost<Seq<int>>,
}

impl View for Bvh {
    type V = TreeView;

    closed spec fn view(&self) -> TreeView {
        TreeView {
            nodes: self.nodes@,
            splits: self.splits@,
            faces: self.face_indices@,
            mins: self.mins@,
            maxs: self.maxs@,
            centroids: self.centroids@,
        }
    }
}

/// The list holds every number below its length once.
pub open spec fn is_permutation(faces: Seq<u32>) -> bool {
    &&& faces.no_duplicates()
    &&& forall|i: int| 0 <= i < faces.len() ==> (#[trigger] faces[i]) < faces.len()
}

impl Bvh {
    /// The sizes agree, and the faces listed are faces.
    closed spec fn shaped(&self) -> bool {
        let nf = self.face_indices@.len();
        &&& nf <= u32::MAX
        &&& self.mins@.len() == nf
        &&& self.maxs@.len() == nf
        &&& self.centroids@.len() == nf
        &&& self.splits@.len() == self.nodes@.len()
        &&& forall|i: int| 0 <= i < nf ==> (#[trigger] self.face_indices@[i]) < nf
    }

    /// The first node is the root of a tree over all faces, in which every
    /// face occurs once; over no faces there is no node.
    pub closed spec fn wf(&self) -> bool {
        &&& self.shaped()
        &&& self@.is_whole()
        &&& is_permutation(self.face_indices@)
    }

    /// What holds of the view of every well-formed tree.
    pub proof fn lemma_view(&self)
        requires
            self.wf(),
        ensures
            self@.is_whole(),
            is_permutation(self@.faces),
            self@.mins.len() == self@.faces.len(),
            self@.maxs.len() == self@.faces.len(),
            self@.centroids.len() == self@.faces.len(),
    {
    }

    /// Builds the tree over faces with the given boxes and centroids. `plane`
    /// says where to cut a node with a given box: along which axis, at which
    /// coordinate.
    pub fn build<F: Fn(Vec3, Vec3) -> (usize, Scalar) + Copy>(
        mins: Vec<Vec3>,
        maxs: Vec<Vec3>,
        centroids: Vec<Vec3>,
        plane: F,
    ) -> (res: Self)
        requires
            2 * mins@.len() <= u32::MAX,
            maxs@.len() == mins@.len(),
            centroids@.len() == mins@.len(),
            forall|lo: Vec3, hi: Vec3| #[trigger] plane.requires((lo, hi)),
            forall|lo: Vec3, hi: Vec3, p: (usize, Scalar)| #[trigger] plane.ensures((lo, hi), p) ==> p.0 < 3,
        ensures
            res.wf(),
            res@.mins == mins@,
            res@.maxs == maxs@,
            res@.centroids == centroids@,
            res@.faces.len() == mins@.len(),
            is_permutation(res@.faces),
            res@.is_whole(),
            mins@.len() > 0 ==> planned(res@, plane, 0, 0, mins@.len() as int),
    {
        let nf: usize = mins.len();
        let mut face_indices: Vec<u32> = Vec::new();
        let mut i: u32 = 0;
        while i < nf as u32
            invariant
                i <= nf <= u32::MAX,
                face_indices@.len() == i,
                forall|k: int| 0 <= k < i ==> #[trigger] face_indices@[k] == k,
            decreases nf - i,
        {
            face_indices.push(i);
            i += 1;
        }
        let ghost ids = face_indices@;
        let mut res = Bvh { nodes: Vec::new(), face_indices, mins, maxs, centroids, splits: Ghost(Seq::empty()) };
        if nf == 0 {
            return res;
        }
        res.build_range(0, nf, plane);
        proof {
            let now = res.face_indices@;
            assert(ids.subrange(0, nf as int) =~= ids);
            assert(now.subrange(0, nf as int) =~= now);
            assert(ids.no_duplicates());
            ids.lemma_multiset_has_no_duplicates();
            now.lemma_multiset_has_no_duplicates_conv();
        }
        res
    }

    /// Builds the subtree over the faces at places `start` to `end`. Returns
    /// its root, which is the first of the nodes added.
    #[verifier::spinoff_prover]
    fn build_range<F: Fn(Vec3, Vec3) -> (usize, Scalar) + Copy>(&mut self, start: usize, end: usize, plane: F) -> (
    idx: u32)
        requires
            old(self).shaped(),
            start < end <= old(self).face_indices@.len(),
            old(self).nodes@.len() + 2 * (end - start) <= u32::MAX,
            forall|lo: Vec3, hi: Vec3| #[trigger] plane.requires((lo, hi)),
            forall|lo: Vec3, hi: Vec3, p: (usize, Scalar)| #[trigger] plane.ensures((lo, hi), p) ==> p.0 < 3,
        ensures
            final(self).shaped(),
            final(self).mins@ == old(self).mins@,
            final(self).maxs@ == old(self).maxs@,
            final(self).centroids@ == old(self).centroids@,
            idx == old(self).nodes@.len(),
            old(self).nodes@.len() < final(self).nodes@.len() < old(self).nodes@.len() + 2 * (end - start),
            forall|i: int| 0 <= i < old(self).nodes@.len() ==> #[trigger] final(self).nodes@[i] == old(self).nodes@[i],
            forall|i: int| 0 <= i < old(self).nodes@.len() ==> #[trigger] final(self).splits@[i] == old(self).splits@[i],
            reordered(old(self).face_indices@, final(self).face_indices@, start as int, end as int),
            final(self)@.tree(idx as int, start as int, end as int),
            planned(final(self)@, plane, idx as int, start as int, end as int),
        decreases end - start,
    {
        let (lo, hi): (Vec3, Vec3) = self.range_box(start, end);
        let count: usize = end - start;
        let idx: u32 = self.nodes.len() as u32;
        let ghost (s, e) = (start as int, end as int);
        if count <= LEAF_FACES {
            self.nodes.push(Node { aabb_min: lo, aabb_max: hi, a: start as u32, count: count as u32, b: 0 });
            self.splits = Ghost(self.splits@.push(0));
            return idx;
        }
        let (axis, mid): (usize, Scalar) = plane(lo, hi);
        let ghost first = self.face_indices@;
        let place: usize = self.partition(start, end, axis, mid);
        let ghost cut = self.face_indices@;
        let split: usize = if place == start || place == end {
            start + count / 2
        } else {
            place
        };
        let ghost m = split as int;
        self.nodes.push(Node { aabb_min: lo, aabb_max: hi, a: 0, count: 0, b: 0 });
        self.splits = Ghost(self.splits@.push(m));
        let left: u32 = self.build_range(start, split, plane);
        let ghost v1 = self@;
        let right: u32 = self.build_range(split, end, plane);
        let ghost v2 = self@;
        let node = Node { aabb_min: lo, aabb_max: hi, a: left, count: 0, b: right };
        self.nodes.set(idx as usize, node);
        proof {
            let w = self@;
            lemma_reordered_widen(cut, v1.faces, s, m, s, e);
            lemma_reordered_widen(v1.faces, v2.faces, m, e, s, e);
            assert(reordered(first, w.faces, s, e));
            lemma_reordered_members(first, w.faces, s, e);
            lemma_bounds_same_members(lo, hi, w.mins, w.maxs, first.subrange(s, e), w.faces.subrange(s, e));
            lemma_tree_frame(v1, v2, left as int, s, m);
            lemma_tree_frame(v2, w, left as int, s, m);
            lemma_tree_frame(v2, w, right as int, m, e);
            lemma_planned_frame(v1, v2, plane, left as int, s, m);
            lemma_planned_frame(v2, w, plane, left as int, s, m);
            lemma_planned_frame(v2, w, plane, right as int, m, e);
            // Reordering the halves leaves each of them on its side.
            lemma_reordered_members(cut, v1.faces, s, m);
            lemma_reordered_members(v1.faces, v2.faces, m, e);
            let (fa, fb) = (w.faces.subrange(s, m), w.faces.subrange(m, e));
            let (ca, cb) = (cut.subrange(s, m), cut.subrange(m, e));
            assert(fa =~= v1.faces.subrange(s, m));
            assert(cb =~= v1.faces.subrange(m, e));
            assert(cut_at(w.centroids, ca, cb, axis, mid)) by {
                assert forall|i: int| 0 <= i < ca.len() implies #[trigger] ca[i] == cut[s + i] by {}
                assert forall|i: int| 0 <= i < cb.len() implies #[trigger] cb[i] == cut[m + i] by {}
            }
            lemma_cut_same_members(w.centroids, ca, cb, fa, fb, axis, mid);
            assert(w.nodes[idx as int] == node);
            assert(w.splits[idx as int] == m);
            let p = (axis, mid);
            assert(plane.ensures((w.nodes[idx as int].aabb_min, w.nodes[idx as int].aabb_max), p));
            assert(cut_somewhere(w, plane, idx as int, s, e));
        }
        idx
    }

    /// The box round the faces at places `start` to `end`.
    fn range_box(&self, start: usize, end: usize) -> (res: (Vec3, Vec3))
        requires
            self.shaped(),
            start <= end <= self.face_indices@.len(),
        ensures
            bounds(res.0, res.1, self.mins@, self.maxs@, self.face_indices@.subrange(start as int, end as int)),
    {
        let (l0, h0): (Scalar, Scalar) = self.axis_box(start, end, 0);
        let (l1, h1): (Scalar, Scalar) = self.axis_box(start, end, 1);
        let (l2, h2): (Scalar, Scalar) = self.axis_box(start, end, 2);
        ([l0, l1, l2], [h0, h1, h2])
    }

    fn axis_box(&self, start: usize, end: usize, k: usize) -> (res: (Scalar, Scalar))
        requires
            self.shaped(),
            start <= end <= self.face_indices@.len(),
            k < 3,
        ensures
            is_lower(res.0, self.mins@, self.face_indices@.subrange(start as int, end as int), k as int),
            is_upper(res.1, self.maxs@, self.face_indices@.subrange(start as int, end as int), k as int),
    {
        let mut lo: Scalar = Scalar::infinity();
        let mut hi: Scalar = Scalar::neg_infinity();
        let mut i: usize = start;
        while i < end
            invariant
                self.shaped(),
                start <= i <= end <= self.face_indices@.len(),
                k < 3,
                is_lower(lo, self.mins@, self.face_indices@.subrange(start as int, i as int), k as int),
                is_upper(hi, self.maxs@, self.face_indices@.subrange(start as int, i as int), k as int),
            decreases end - i,
        {
            let f: usize = self.face_indices[i] as usize;
            let (x, y): (Scalar, Scalar) = (self.mins[f][k], self.maxs[f][k]);
            let ghost (lo0, hi0) = (lo, hi);
            let ghost seen = self.face_indices@.subrange(start as int, i as int);
            let ghost more = self.face_indices@.subrange(start as int, i + 1);
            if x.lt(lo) {
                lo = x;
            }
            if y.gt(hi) {
                hi = y;
            }
            proof {
                let n = i - start;
                assert(more[n] == f);
                assert forall|j: int| 0 <= j < more.len() implies !(self.mins@[#[trigger] more[j] as int][k as int].spec_lt(lo))
                    && !(hi.spec_lt(self.maxs@[more[j] as int][k as int])) by {
                    if j < n {
                        assert(more[j] == seen[j]);
                        assert(!(self.mins@[seen[j] as int][k as int].spec_lt(lo0)));
                        assert(!(hi0.spec_lt(self.maxs@[seen[j] as int][k as int])));
                    }
                }
                if lo != (Scalar { bits: 0x7f80_0000 }) {
                    if x.spec_lt(lo0) {
                        assert(lo == self.mins@[more[n] as int][k as int]);
                    } else {
                        let j = choose|j: int| 0 <= j < seen.len() && lo0 == self.mins@[#[trigger] seen[j] as int][k as int];
                        assert(more[j] == seen[j]);
                        assert(lo == self.mins@[more[j] as int][k as int]);
                    }
                }
                if hi != (Scalar { bits: 0xff80_0000 }) {
                    if hi0.spec_lt(y) {
                        assert(hi == self.maxs@[more[n] as int][k as int]);
                    } else {
                        let j = choose|j: int| 0 <= j < seen.len() && hi0 == self.maxs@[#[trigger] seen[j] as int][k as int];
                        assert(more[j] == seen[j]);
                        assert(hi == self.maxs@[more[j] as int][k as int]);
                    }
                }
            }
            i += 1;
        }
        (lo, hi)
    }

    /// Brings the faces at places `start` to `end` that lie before the plane
    /// to the front. Returns the place of the first that does not.
    fn partition(&mut self, start: usize, end: usize, axis: usize, mid: Scalar) -> (split: usize)
        requires
            old(self).shaped(),
            start <= end <= old(self).face_indices@.len(),
            axis < 3,
        ensures
            final(self).shaped(),
            *final(self) == (Bvh { face_indices: final(self).face_indices, ..*old(self) }),
            reordered(old(self).face_indices@, final(self).face_indices@, start as int, end as int),
            start <= split <= end,
            forall|i: int|
                start <= i < split ==> final(self).centroids@[#[trigger] final(self).face_indices@[i] as int][axis as int].spec_lt(
                    mid,
                ),
            forall|i: int|
                split <= i < end ==> !final(self).centroids@[#[trigger] final(self).face_indices@[i] as int][axis as int].spec_lt(
                    mid,
                ),
    {
        let ghost nf = self.face_indices@.len();
        let mut i: usize = start;
        let mut j: usize = end;
        while i < j
            invariant
                self.shaped(),
                *self == (Bvh { face_indices: self.face_indices, ..*old(self) }),
                nf == old(self).face_indices@.len(),
                reordered(old(self).face_indices@, self.face_indices@, start as int, end as int),
                start <= i <= j <= end <= nf,
                axis < 3,
                forall|k: int|
                    start <= k < i ==> self.centroids@[#[trigger] self.face_indices@[k] as int][axis as int].spec_lt(mid),
                forall|k: int|
                    j <= k < end ==> !self.centroids@[#[trigger] self.face_indices@[k] as int][axis as int].spec_lt(mid),
            decreases j - i,
        {
            let f: u32 = self.face_indices[i];
            if self.centroids[f as usize][axis].lt(mid) {
                i += 1;
            } else {
                j -= 1;
                let ghost before = self.face_indices@;
                let g: u32 = self.face_indices[j];
                self.face_indices.set(i, g);
                self.face_indices.set(j, f);
                proof {
                    let (s, e) = (start as int, end as int);
                    let now = self.face_indices@;
                    let (b, n) = (before.subrange(s, e), now.subrange(s, e));
                    lemma_swap_multiset(b, i - s, j - s);
                    assert(n =~= b.update(i - s, b[j - s]).update(j - s, b[i - s]));
                }
            }
        }
        i
    }
}

/// The nearer of the best so far and each face in turn.
pub open spec fn nearest_of(d: spec_fn(u32) -> Scalar, faces: Seq<u32>, best: (u32, Scalar)) -> (u32, Scalar)
    decreases faces.len(),
{
    if faces.len() == 0 {
        best
    } else {
        let before = nearest_of(d, faces.drop_last(), best);
        let f = faces.last();
        if d(f).spec_lt(before.1) {
            (f, d(f))
        } else {
            before
        }
    }
}

impl TreeView {
    /// What a search for the nearest face finds under node `idx`, given the
    /// best so far. `b` says how far a box is at least, `d` how far a face is.
    /// A node is passed over where its box is not nearer than the best; of two
    /// children the nearer is searched first.
    pub open spec fn search(
        self,
        b: spec_fn(Vec3, Vec3) -> Scalar,
        d: spec_fn(u32) -> Scalar,
        idx: int,
        s: int,
        e: int,
        best: (u32, Scalar),
    ) -> (u32, Scalar)
        decreases e - s,
    {
        let n = self.nodes[idx];
        let m = self.splits[idx];
        if best.1.spec_le(b(n.aabb_min, n.aabb_max)) {
            best
        } else if n.count > 0 {
            nearest_of(d, self.faces.subrange(s, e), best)
        } else if !(s < m < e) {
            best
        } else {
            let (l, r) = (self.nodes[n.a as int], self.nodes[n.b as int]);
            if b(l.aabb_min, l.aabb_max).spec_le(b(r.aabb_min, r.aabb_max)) {
                let first = self.search(b, d, n.a as int, s, m, best);
                self.search(b, d, n.b as int, m, e, first)
            } else {
                let first = self.search(b, d, n.b as int, m, e, best);
                self.search(b, d, n.a as int, s, m, first)
            }
        }
    }

    /// What a ray query finds under node `idx`: `b` says whether the ray meets
    /// a box, `h` whether it meets a face.
    pub open spec fn meets(
        self,
        b: spec_fn(Vec3, Vec3) -> bool,
        h: spec_fn(u32) -> bool,
        idx: int,
        s: int,
        e: int,
    ) -> bool
        decreases e - s,
    {
        let n = self.nodes[idx];
        let m = self.splits[idx];
        if !b(n.aabb_min, n.aabb_max) {
            false
        } else if n.count > 0 {
            exists|i: int| s <= i < e && h(#[trigger] self.faces[i])
        } else {
            s < m < e && (self.meets(b, h, n.a as int, s, m) || self.meets(b, h, n.b as int, m, e))
        }
    }

    /// The first node is the root of a tree over all faces; without faces there
    /// is no node.
    pub open spec fn is_whole(self) -> bool {
        if self.faces.len() == 0 {
            self.nodes.len() == 0
        } else {
            self.tree(0, 0, self.faces.len() as int)
        }
    }

    /// What a search of the whole tree finds: the nearest face and its
    /// distance, or face 0 at infinity.
    pub open spec fn nearest(self, b: spec_fn(Vec3, Vec3) -> Scalar, d: spec_fn(u32) -> Scalar) -> (u32, Scalar) {
        let start = (0u32, Scalar { bits: 0x7f80_0000 });
        if self.faces.len() == 0 {
            start
        } else {
            self.search(b, d, 0, 0, self.faces.len() as int, start)
        }
    }

    /// What a ray query of the whole tree finds.
    pub open spec fn is_hit(self, b: spec_fn(Vec3, Vec3) -> bool, h: spec_fn(u32) -> bool) -> bool {
        self.faces.len() > 0 && self.meets(b, h, 0, 0, self.faces.len() as int)
    }

    /// A box round some faces is never farther than one of them.
    pub open spec fn distances_agree(self, b: spec_fn(Vec3, Vec3) -> Scalar, d: spec_fn(u32) -> Scalar) -> bool {
        forall|lo: Vec3, hi: Vec3, fs: Seq<u32>, f: u32|
            #![trigger bounds(lo, hi, self.mins, self.maxs, fs), fs.contains(f)]
            bounds(lo, hi, self.mins, self.maxs, fs) && fs.contains(f) ==> b(lo, hi).spec_le(d(f))
    }

    /// A ray that meets a face meets every box round it.
    pub open spec fn hits_agree(self, b: spec_fn(Vec3, Vec3) -> bool, h: spec_fn(u32) -> bool) -> bool {
        forall|lo: Vec3, hi: Vec3, fs: Seq<u32>, f: u32|
            #![trigger bounds(lo, hi, self.mins, self.maxs, fs), fs.contains(f)]
            bounds(lo, hi, self.mins, self.maxs, fs) && fs.contains(f) && h(f) ==> b(lo, hi)
    }
}

proof fn lemma_nearest_of(d: spec_fn(u32) -> Scalar, faces: Seq<u32>, best: (u32, Scalar))
    requires
        !best.1.spec_is_nan(),
    ensures
        ({
            let r = nearest_of(d, faces, best);
            &&& r.1.spec_le(best.1)
            &&& r == best || (faces.contains(r.0) && r.1 == d(r.0) && r.1.spec_lt(best.1))
            &&& forall|f: u32| #[trigger] faces.contains(f) ==> !d(f).spec_lt(r.1)
        }),
    decreases faces.len(),
{
    if faces.len() > 0 {
        let rest = faces.drop_last();
        lemma_nearest_of(d, rest, best);
        let before = nearest_of(d, rest, best);
        let r = nearest_of(d, faces, best);
        assert(faces =~= rest.push(faces.last()));
        assert forall|f: u32| #[trigger] faces.contains(f) implies !d(f).spec_lt(r.1) by {
            lemma_push_contains(rest, faces.last(), f);
            if rest.contains(f) {
                assert(!d(f).spec_lt(before.1));
            }
        }
        lemma_push_contains(rest, faces.last(), r.0);
    }
}

/// A search finds a face than which none is nearer, or nothing nearer than
/// what it started from.
pub proof fn law_search_finds_nearest(
    v: TreeView,
    b: spec_fn(Vec3, Vec3) -> Scalar,
    d: spec_fn(u32) -> Scalar,
    idx: int,
    s: int,
    e: int,
    best: (u32, Scalar),
)
    requires
        v.tree(idx, s, e),
        v.distances_agree(b, d),
        !best.1.spec_is_nan(),
    ensures
        ({
            let r = v.search(b, d, idx, s, e, best);
            &&& r.1.spec_le(best.1)
            &&& r == best || (r.1 == d(r.0) && r.1.spec_lt(best.1) && v.faces.subrange(s, e).contains(r.0))
            &&& forall|i: int| s <= i < e ==> r.1.spec_le(d(#[trigger] v.faces[i]))
        }),
    decreases e - s,
{
    let n = v.nodes[idx];
    let m = v.splits[idx];
    let run = v.faces.subrange(s, e);
    let r = v.search(b, d, idx, s, e, best);
    assert forall|i: int| s <= i < e implies b(n.aabb_min, n.aabb_max).spec_le(d(#[trigger] v.faces[i])) by {
        assert(run[i - s] == v.faces[i]);
        assert(run.contains(v.faces[i]));
        assert(bounds(n.aabb_min, n.aabb_max, v.mins, v.maxs, run));
    }
    if best.1.spec_le(b(n.aabb_min, n.aabb_max)) {
    } else if n.count > 0 {
        lemma_nearest_of(d, run, best);
        assert forall|i: int| s <= i < e implies r.1.spec_le(d(#[trigger] v.faces[i])) by {
            assert(run[i - s] == v.faces[i]);
            assert(run.contains(v.faces[i]));
            assert(b(n.aabb_min, n.aabb_max).spec_le(d(v.faces[i])));
        }
    } else {
        let (l, rt) = (v.nodes[n.a as int], v.nodes[n.b as int]);
        let left_first = b(l.aabb_min, l.aabb_max).spec_le(b(rt.aabb_min, rt.aabb_max));
        let (p, q) = (v.faces.subrange(s, m), v.faces.subrange(m, e));
        if left_first {
            law_search_finds_nearest(v, b, d, n.a as int, s, m, best);
            let first = v.search(b, d, n.a as int, s, m, best);
            law_search_finds_nearest(v, b, d, n.b as int, m, e, first);
        } else {
            law_search_finds_nearest(v, b, d, n.b as int, m, e, best);
            let first = v.search(b, d, n.b as int, m, e, best);
            law_search_finds_nearest(v, b, d, n.a as int, s, m, first);
        }
        assert forall|x: u32| p.contains(x) || q.contains(x) implies #[trigger] run.contains(x) by {
            if p.contains(x) {
                let i = choose|i: int| 0 <= i < p.len() && p[i] == x;
                assert(run[i] == x);
            } else {
                let i = choose|i: int| 0 <= i < q.len() && q[i] == x;
                assert(run[m - s + i] == x);
            }
        }
        assert(r == best || run.contains(r.0));
    }
}

/// A ray query says whether the ray meets a face.
pub proof fn law_ray_meets_a_face(
    v: TreeView,
    b: spec_fn(Vec3, Vec3) -> bool,
    h: spec_fn(u32) -> bool,
    idx: int,
    s: int,
    e: int,
)
    requires
        v.tree(idx, s, e),
        v.hits_agree(b, h),
    ensures
        v.meets(b, h, idx, s, e) <==> exists|i: int| s <= i < e && h(#[trigger] v.faces[i]),
    decreases e - s,
{
    let n = v.nodes[idx];
    let m = v.splits[idx];
    let run = v.faces.subrange(s, e);
    assert forall|i: int| s <= i < e && h(#[trigger] v.faces[i]) implies b(n.aabb_min, n.aabb_max) by {
        assert(run[i - s] == v.faces[i]);
        assert(run.contains(v.faces[i]));
        assert(bounds(n.aabb_min, n.aabb_max, v.mins, v.maxs, run));
    }
    if b(n.aabb_min, n.aabb_max) && n.count == 0 {
        law_ray_meets_a_face(v, b, h, n.a as int, s, m);
        law_ray_meets_a_face(v, b, h, n.b as int, m, e);
        if exists|i: int| s <= i < e && h(#[trigger] v.faces[i]) {
            let i = choose|i: int| s <= i < e && h(#[trigger] v.faces[i]);
            if i < m {
                assert(s <= i < m && h(v.faces[i]));
            } else {
                assert(m <= i < e && h(v.faces[i]));
            }
        }
        if v.meets(b, h, n.a as int, s, m) {
            let i = choose|i: int| s <= i < m && h(#[trigger] v.faces[i]);
            assert(s <= i < e && h(v.faces[i]));
        }
        if v.meets(b, h, n.b as int, m, e) {
            let i = choose|i: int| m <= i < e && h(#[trigger] v.faces[i]);
            assert(s <= i < e && h(v.faces[i]));
        }
    }
}

/// What the function returns for a box is what `b` says.
pub open spec fn box_function<T, F: Fn(Vec3, Vec3) -> T>(f: F, b: spec_fn(Vec3, Vec3) -> T) -> bool {
    forall|lo: Vec3, hi: Vec3, x: T| #[trigger] f.ensures((lo, hi), x) ==> x == b(lo, hi)
}

/// What the function returns for a face is what `d` says.
pub open spec fn face_function<T, F: Fn(u32) -> T>(f: F, d: spec_fn(u32) -> T) -> bool {
    forall|i: u32, x: T| #[trigger] f.ensures((i,), x) ==> x == d(i)
}

impl Bvh {
    /// The nearest face and how far it is. `bound` says how far a box is at
    /// least, `dist` how far a face is. Where no face is nearer than infinity,
    /// face 0 at infinity.
    pub fn nearest_face<B: Fn(Vec3, Vec3) -> Scalar + Copy, D: Fn(u32) -> Scalar + Copy>(&self, bound: B, dist: D) -> (
    res: (u32, Scalar))
        requires
            self.wf(),
            forall|lo: Vec3, hi: Vec3| #[trigger] bound.requires((lo, hi)),
            forall|f: u32| f < self@.faces.len() ==> #[trigger] dist.requires((f,)),
        ensures
            forall|b: spec_fn(Vec3, Vec3) -> Scalar, d: spec_fn(u32) -> Scalar|
                #![trigger box_function(bound, b), face_function(dist, d)]
                box_function(bound, b) && face_function(dist, d) ==> res == self@.nearest(b, d),
            self@.faces.len() == 0 ==> res == (0u32, (Scalar { bits: 0x7f80_0000 })),
    {
        if self.nodes.len() == 0 {
            return (0, Scalar::infinity());
        }
        self.descend(0, bound, dist, (0, Scalar::infinity()), Ghost(0), Ghost(self.face_indices@.len() as int))
    }

    fn descend<B: Fn(Vec3, Vec3) -> Scalar + Copy, D: Fn(u32) -> Scalar + Copy>(
        &self,
        idx: u32,
        bound: B,
        dist: D,
        best: (u32, Scalar),
        Ghost(s): Ghost<int>,
        Ghost(e): Ghost<int>,
    ) -> (res: (u32, Scalar))
        requires
            self.shaped(),
            self@.tree(idx as int, s, e),
            forall|lo: Vec3, hi: Vec3| #[trigger] bound.requires((lo, hi)),
            forall|f: u32| f < self@.faces.len() ==> #[trigger] dist.requires((f,)),
        ensures
            forall|b: spec_fn(Vec3, Vec3) -> Scalar, d: spec_fn(u32) -> Scalar|
                #![trigger box_function(bound, b), face_function(dist, d)]
                box_function(bound, b) && face_function(dist, d) ==> res == self@.search(b, d, idx as int, s, e, best),
        decreases e - s,
    {
        let node: Node = self.nodes[idx as usize];
        let here: Scalar = bound(node.aabb_min, node.aabb_max);
        if here.ge(best.1) {
            return best;
        }
        if node.count > 0 {
            let first: usize = node.a as usize;
            let last: usize = first + node.count as usize;
            let mut now: (u32, Scalar) = best;
            let mut i: usize = first;
            while i < last
                invariant
                    self.shaped(),
                    s == first,
                    e == last,
                    0 <= s <= i <= e <= self.face_indices@.len(),
                    forall|f: u32| f < self@.faces.len() ==> #[trigger] dist.requires((f,)),
                    forall|d: spec_fn(u32) -> Scalar| #[trigger]
                        face_function(dist, d) ==> now == nearest_of(d, self@.faces.subrange(s, i as int), best),
                decreases last - i,
            {
                let f: u32 = self.face_indices[i];
                let x: Scalar = dist(f);
                let ghost before = now;
                if x.lt(now.1) {
                    now = (f, x);
                }
                proof {
                    let longer = self@.faces.subrange(s, i + 1);
                    assert(longer.drop_last() =~= self@.faces.subrange(s, i as int));
                    assert(longer.last() == f);
                    assert forall|d: spec_fn(u32) -> Scalar| #[trigger] face_function(dist, d) implies now == nearest_of(
                        d,
                        longer,
                        best,
                    ) by {
                        assert(before == nearest_of(d, self@.faces.subrange(s, i as int), best));
                        assert(dist.ensures((f,), x));
                    }
                }
                i += 1;
            }
            proof {
                assert forall|b: spec_fn(Vec3, Vec3) -> Scalar, d: spec_fn(u32) -> Scalar|
                    #![trigger box_function(bound, b), face_function(dist, d)]
                    box_function(bound, b) && face_function(dist, d) implies now == self@.search(
                    b,
                    d,
                    idx as int,
                    s,
                    e,
                    best,
                ) by {
                    assert(bound.ensures((node.aabb_min, node.aabb_max), here));
                }
            }
            return now;
        }
        let ghost m = self.splits@[idx as int];
        assert(self@.tree(node.a as int, s, m) && self@.tree(node.b as int, m, e));
        let l: Node = self.nodes[node.a as usize];
        let r: Node = self.nodes[node.b as usize];
        let ld: Scalar = bound(l.aabb_min, l.aabb_max);
        let rd: Scalar = bound(r.aabb_min, r.aabb_max);
        let res: (u32, Scalar) = if ld.le(rd) {
            let first = self.descend(node.a, bound, dist, best, Ghost(s), Ghost(m));
            self.descend(node.b, bound, dist, first, Ghost(m), Ghost(e))
        } else {
            let first = self.descend(node.b, bound, dist, best, Ghost(m), Ghost(e));
            self.descend(node.a, bound, dist, first, Ghost(s), Ghost(m))
        };
        proof {
            assert forall|b: spec_fn(Vec3, Vec3) -> Scalar, d: spec_fn(u32) -> Scalar|
                #![trigger box_function(bound, b), face_function(dist, d)]
                box_function(bound, b) && face_function(dist, d) implies res == self@.search(
                b,
                d,
                idx as int,
                s,
                e,
                best,
            ) by {
                assert(bound.ensures((node.aabb_min, node.aabb_max), here));
                assert(bound.ensures((l.aabb_min, l.aabb_max), ld));
                assert(bound.ensures((r.aabb_min, r.aabb_max), rd));
            }
        }
        res
    }

    /// Whether a ray meets a face. `meets_box` says whether it meets a box,
    /// `meets_face` whether it meets a face.
    pub fn any_hit<B: Fn(Vec3, Vec3) -> bool + Copy, H: Fn(u32) -> bool + Copy>(&self, meets_box: B, meets_face: H) -> (
    res: bool)
        requires
            self.wf(),
            forall|lo: Vec3, hi: Vec3| #[trigger] meets_box.requires((lo, hi)),
            forall|f: u32| f < self@.faces.len() ==> #[trigger] meets_face.requires((f,)),
        ensures
            forall|b: spec_fn(Vec3, Vec3) -> bool, h: spec_fn(u32) -> bool|
                #![trigger box_function(meets_box, b), face_function(meets_face, h)]
                box_function(meets_box, b) && face_function(meets_face, h) ==> res == self@.is_hit(b, h),
            self@.faces.len() == 0 ==> !res,
    {
        if self.nodes.len() == 0 {
            return false;
        }
        self.descend_ray(0, meets_box, meets_face, Ghost(0), Ghost(self.face_indices@.len() as int))
    }

    fn descend_ray<B: Fn(Vec3, Vec3) -> bool + Copy, H: Fn(u32) -> bool + Copy>(
        &self,
        idx: u32,
        meets_box: B,
        meets_face: H,
        Ghost(s): Ghost<int>,
        Ghost(e): Ghost<int>,
    ) -> (res: bool)
        requires
            self.shaped(),
            self@.tree(idx as int, s, e),
            forall|lo: Vec3, hi: Vec3| #[trigger] meets_box.requires((lo, hi)),
            forall|f: u32| f < self@.faces.len() ==> #[trigger] meets_face.requires((f,)),
        ensures
            forall|b: spec_fn(Vec3, Vec3) -> bool, h: spec_fn(u32) -> bool|
                #![trigger box_function(meets_box, b), face_function(meets_face, h)]
                box_function(meets_box, b) && face_function(meets_face, h) ==> res == self@.meets(
                    b,
                    h,
                    idx as int,
                    s,
                    e,
                ),
        decreases e - s,
    {
        let node: Node = self.nodes[idx as usize];
        let here: bool = meets_box(node.aabb_min, node.aabb_max);
        if !here {
            return false;
        }
        if node.count > 0 {
            let first: usize = node.a as usize;
            let last: usize = first + node.count as usize;
            let mut i: usize = first;
            while i < last
                invariant
                    self.shaped(),
                    s == first,
                    e == last,
                    0 <= s <= i <= e <= self.face_indices@.len(),
                    idx < self.nodes@.len(),
                    node == self.nodes@[idx as int],
                    node.count > 0,
                    here,
                    meets_box.ensures((node.aabb_min, node.aabb_max), here),
                    forall|f: u32| f < self@.faces.len() ==> #[trigger] meets_face.requires((f,)),
                    forall|h: spec_fn(u32) -> bool| #[trigger]
                        face_function(meets_face, h) ==> forall|k: int| s <= k < i ==> !h(#[trigger] self@.faces[k]),
                decreases last - i,
            {
                let f: u32 = self.face_indices[i];
                let x: bool = meets_face(f);
                if x {
                    proof {
                        assert forall|b: spec_fn(Vec3, Vec3) -> bool, h: spec_fn(u32) -> bool|
                            #![trigger box_function(meets_box, b), face_function(meets_face, h)]
                            box_function(meets_box, b) && face_function(meets_face, h) implies self@.meets(
                            b,
                            h,
                            idx as int,
                            s,
                            e,
                        ) by {
                            assert(meets_face.ensures((f,), x));
                            assert(h(self@.faces[i as int]));
                        }
                    }
                    return true;
                }
                proof {
                    assert forall|h: spec_fn(u32) -> bool| #[trigger] face_function(meets_face, h) implies forall|k: int|
                        s <= k < i + 1 ==> !h(#[trigger] self@.faces[k]) by {
                        assert(meets_face.ensures((f,), x));
                        assert(!h(f));
                    }
                }
                i += 1;
            }
            return false;
        }
        let ghost m = self.splits@[idx as int];
        let on_left: bool = self.descend_ray(node.a, meets_box, meets_face, Ghost(s), Ghost(m));
        if on_left {
            return true;
        }
        self.descend_ray(node.b, meets_box, meets_face, Ghost(m), Ghost(e))
    }
}

/// A search of a whole tree finds a face than which none is nearer, or nothing
/// where none is nearer than infinity.
pub proof fn law_nearest_is_nearest(v: TreeView, b: spec_fn(Vec3, Vec3) -> Scalar, d: spec_fn(u32) -> Scalar)
    requires
        v.is_whole(),
        v.distances_agree(b, d),
    ensures
        ({
            let r = v.nearest(b, d);
            &&& forall|i: int| 0 <= i < v.faces.len() ==> r.1.spec_le(d(#[trigger] v.faces[i]))
            &&& r == (0u32, Scalar { bits: 0x7f80_0000 }) || (v.faces.contains(r.0) && r.1 == d(r.0))
        }),
{
    let n = v.faces.len() as int;
    if n > 0 {
        law_search_finds_nearest(v, b, d, 0, 0, n, (0u32, Scalar { bits: 0x7f80_0000 }));
        assert(v.faces.subrange(0, n) =~= v.faces);
    }
}

/// A ray query of a whole tree says whether the ray meets a face; over no faces
/// it says no.
pub proof fn law_hit_is_a_hit(v: TreeView, b: spec_fn(Vec3, Vec3) -> bool, h: spec_fn(u32) -> bool)
    requires
        v.is_whole(),
        v.hits_agree(b, h),
    ensures
        v.is_hit(b, h) <==> exists|i: int| 0 <= i < v.faces.len() && h(#[trigger] v.faces[i]),
{
    if v.faces.len() > 0 {
        law_ray_meets_a_face(v, b, h, 0, 0, v.faces.len() as int);
    }
}

/// The box of a node holds the boxes of its faces.
pub proof fn law_node_box_holds_its_faces(
    lo: Vec3,
    hi: Vec3,
    mins: Seq<Vec3>,
    maxs: Seq<Vec3>,
    faces: Seq<u32>,
    i: int,
    k: int,
)
    requires
        bounds(lo, hi, mins, maxs, faces),
        0 <= i < faces.len(),
        0 <= k < 3,
        !mins[faces[i] as int][k].spec_is_nan(),
        !maxs[faces[i] as int][k].spec_is_nan(),
        !lo[k].spec_is_nan(),
        !hi[k].spec_is_nan(),
    ensures
        lo[k].spec_le(mins[faces[i] as int][k]),
        maxs[faces[i] as int][k].spec_le(hi[k]),
{
    assert(k == 0 || k == 1 || k == 2);
    assert(is_lower(lo[k], mins, faces, k) && is_upper(hi[k], maxs, faces, k));
}

/// A cut puts the faces before the plane first and the others second; where the
/// plane does not part them, it cuts in the middle.
pub proof fn law_cut_parts_by_the_plane(
    centroids: Seq<Vec3>,
    first: Seq<u32>,
    second: Seq<u32>,
    axis: usize,
    mid: Scalar,
    i: int,
    j: int,
)
    requires
        cut_at(centroids, first, second, axis, mid),
        0 <= i < first.len(),
        0 <= j < second.len(),
    ensures
        centroids[second[j] as int][axis as int].spec_lt(mid) ==> centroids[first[i] as int][axis as int].spec_lt(mid),
        centroids[first[i] as int][axis as int].spec_lt(mid) == centroids[second[j] as int][axis as int].spec_lt(mid)
            ==> first.len() == (first.len() + second.len()) / 2,
{
}

/// Every face is in the tree once.
pub proof fn law_every_face_is_in_the_tree_once(faces: Seq<u32>, f: u32)
    requires
        is_permutation(faces),
        f < faces.len(),
        faces.len() <= u32::MAX,
    ensures
        faces.contains(f),
        forall|i: int, j: int| 0 <= i < faces.len() && 0 <= j < faces.len() && faces[i] == f && faces[j] == f ==> i == j,
{
    if !faces.contains(f) {
        let others = faces.push(f);
        assert(others.no_duplicates()) by {
            assert forall|i: int, j: int| 0 <= i < others.len() && 0 <= j < others.len() && i != j implies others[i]
                != others[j] by {
                if i == faces.len() {
                    assert(faces.contains(faces[j]));
                } else if j == faces.len() {
                    assert(faces.contains(faces[i]));
                }
            }
        }
        crate::faces::lemma_distinct_bounded(others, faces.len());
    }
}

/// Of faces that are as near, the first is taken, and none where none is nearer
/// than what is known.
pub proof fn law_first_of_the_nearest(d: spec_fn(u32) -> Scalar, faces: Seq<u32>, best: (u32, Scalar), j: int)
    requires
        !best.1.spec_is_nan(),
        forall|f: u32| !(#[trigger] d(f)).spec_is_nan(),
        0 <= j < faces.len(),
    ensures
        ({
            let r = nearest_of(d, faces, best);
            &&& r.1.spec_le(d(faces[j])) && r.1.spec_le(best.1)
            &&& r == best || (r.1.spec_lt(best.1) && exists|i: int|
                0 <= i < faces.len() && r == (#[trigger] faces[i], d(faces[i])) && (j < i ==> r.1.spec_lt(d(faces[j]))))
        }),
    decreases faces.len(),
{
    let rest = faces.drop_last();
    let f = faces.last();
    let before = nearest_of(d, rest, best);
    let n = faces.len() - 1;
    lemma_nearest_so_far(d, rest, best);
    let r = nearest_of(d, faces, best);
    if d(f).spec_lt(before.1) {
        assert(r == (faces[n], d(faces[n])));
        if j < n {
            law_first_of_the_nearest(d, rest, best, j);
            assert(rest[j] == faces[j]);
        }
    } else {
        assert(r == before);
        if j < n {
            law_first_of_the_nearest(d, rest, best, j);
            assert(rest[j] == faces[j]);
            if r != best {
                let i = choose|i: int|
                    0 <= i < rest.len() && before == (#[trigger] rest[i], d(rest[i])) && (j < i ==> before.1.spec_lt(
                        d(rest[j]),
                    ));
                assert(faces[i] == rest[i]);
            }
        } else if r != best {
            let i = choose|i: int| 0 <= i < rest.len() && before == (#[trigger] rest[i], d(rest[i]));
            assert(faces[i] == rest[i]);
        }
    }
}

proof fn lemma_nearest_so_far(d: spec_fn(u32) -> Scalar, faces: Seq<u32>, best: (u32, Scalar))
    requires
        !best.1.spec_is_nan(),
        forall|f: u32| !(#[trigger] d(f)).spec_is_nan(),
    ensures
        ({
            let r = nearest_of(d, faces, best);
            &&& !r.1.spec_is_nan()
            &&& r.1.spec_le(best.1)
            &&& r == best || (r.1.spec_lt(best.1) && exists|i: int| 0 <= i < faces.len() && r == (#[trigger] faces[i], d(faces[i])))
        }),
    decreases faces.len(),
{
    if faces.len() > 0 {
        let rest = faces.drop_last();
        lemma_nearest_so_far(d, rest, best);
        let before = nearest_of(d, rest, best);
        let n = faces.len() - 1;
        if d(faces[n]).spec_lt(before.1) {
            assert(nearest_of(d, faces, best) == (faces[n], d(faces[n])));
        } else if before != best {
            let i = choose|i: int| 0 <= i < rest.len() && before == (#[trigger] rest[i], d(rest[i]));
            assert(faces[i] == rest[i]);
        }
    }
}

/// A tree has its faces in leaves of four at most; a node that is no leaf has
/// two children, which share out its faces and come after it.
pub proof fn law_leaves_hold_few_faces(v: TreeView, idx: int, s: int, e: int)
    requires
        v.tree(idx, s, e),
    ensures
        bounds(v.nodes[idx].aabb_min, v.nodes[idx].aabb_max, v.mins, v.maxs, v.faces.subrange(s, e)),
        v.nodes[idx].count > 0 ==> v.nodes[idx].count == e - s && v.nodes[idx].a == s && e - s <= 4,
        v.nodes[idx].count == 0 ==> exists|m: int|
            s < m < e && v.tree(v.nodes[idx].a as int, s, m) && #[trigger] v.tree(v.nodes[idx].b as int, m, e)
                && idx < v.nodes[idx].a && idx < v.nodes[idx].b,
        e - s > 4 ==> v.nodes[idx].count == 0,
{
    if v.nodes[idx].count == 0 {
        assert(v.tree(v.nodes[idx].b as int, v.splits[idx], e));
    }
}

} // verus!
