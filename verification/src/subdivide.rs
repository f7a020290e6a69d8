//! Splitting faces that no single primitive fits.

use crate::tessellate::goes;
use vstd::prelude::*;

verus! {

/// The three triangles of a triangle that gets a new vertex `c` inside.
pub open spec fn children(t: [u32; 3], c: u32) -> Seq<[u32; 3]> {
    seq![[t[0], t[1], c], [t[1], t[2], c], [t[2], t[0], c]]
}

/// What a round over the faces leads to: the triangles, how often each of them
/// has been split off, and which faces were split.
pub struct Round {
    pub tris: Seq<[u32; 3]>,
    pub depths: Seq<int>,
    pub split: Seq<u32>,
}

/// The round up to face `n`. A face is split where it is bad and has not been
/// split off too often; the new vertices are numbered from `n_verts`.
pub open spec fn round(tris: Seq<[u32; 3]>, depths: Seq<int>, bad: Seq<bool>, max_depth: int, n_verts: int, n: nat) -> Round
    decreases n,
{
    if n == 0 {
        Round { tris: Seq::empty(), depths: Seq::empty(), split: Seq::empty() }
    } else {
        let r = round(tris, depths, bad, max_depth, n_verts, (n - 1) as nat);
        let f = n - 1;
        if depths[f] < max_depth && bad[f] {
            let d = depths[f] + 1;
            Round {
                tris: r.tris + children(tris[f], (n_verts + r.split.len()) as u32),
                depths: r.depths + seq![d, d, d],
                split: r.split.push(f as u32),
            }
        } else {
            Round { tris: r.tris.push(tris[f]), depths: r.depths.push(depths[f]), split: r.split }
        }
    }
}

/// Every split adds two triangles.
pub proof fn law_split_adds_two(
    tris: Seq<[u32; 3]>,
    depths: Seq<int>,
    bad: Seq<bool>,
    max_depth: int,
    n_verts: int,
    n: nat,
)
    ensures
        ({
            let r = round(tris, depths, bad, max_depth, n_verts, n);
            &&& r.tris.len() == n + 2 * r.split.len()
            &&& r.depths.len() == r.tris.len()
            &&& r.split.len() <= n
        }),
    decreases n,
{
    if n > 0 {
        law_split_adds_two(tris, depths, bad, max_depth, n_verts, (n - 1) as nat);
    }
}

/// The children of a triangle go round the same outer edges the same way, each
/// of them along one, and along the inner edges against each other.
pub proof fn law_children_keep_outline(t: [u32; 3], c: u32, u: u32, v: u32)
    requires
        c != t[0],
        c != t[1],
        c != t[2],
    ensures
        u != c && v != c ==> (goes(seq![t], 0, u, v) <==> exists|i: int| 0 <= i < 3 && #[trigger] goes(children(t, c), i, u, v)),
        forall|i: int| 0 <= i < 3 && #[trigger] goes(children(t, c), i, u, c) ==> goes(children(t, c), (i + 1) % 3, c, u),
{
    let k = children(t, c);
    let one = seq![t];
    assert(one[0] == t);
    assert(k[0] == [t[0], t[1], c] && k[1] == [t[1], t[2], c] && k[2] == [t[2], t[0], c]);
    if u != c && v != c && goes(one, 0, u, v) {
        if t[0] == u && t[1] == v {
            assert(goes(k, 0, u, v));
        } else if t[1] == u && t[2] == v {
            assert(goes(k, 1, u, v));
        } else {
            assert(goes(k, 2, u, v));
        }
    }
    assert forall|i: int| 0 <= i < 3 && #[trigger] goes(k, i, u, c) implies goes(k, (i + 1) % 3, c, u) by {
        assert(i == 0 || i == 1 || i == 2);
    }
}

/// What the subdivision did.
#[derive(Clone, Copy, Debug, PartialEq, Eq, Structural)]
pub struct SubdivideStats {
    pub split_faces: usize,
    pub added_tris: usize,
    pub max_depth_reached: usize,
}

/// A subdivision in progress.
pub struct Subdivision {
    tris: Vec<[u32; 3]>,
    depths: Vec<usize>,
    max_depth: usize,
    rounds: usize,
    changed: bool,
    split_faces: usize,
    start_tris: usize,
}

/// What a [`Subdivision`] stands for.
pub struct SubdivisionView {
    pub tris: Seq<[u32; 3]>,
    pub depths: Seq<int>,
    pub max_depth: int,
    pub rounds: int,
    pub changed: bool,
    pub split_faces: int,
    pub start_tris: int,
}

impl View for Subdivision {
    type V = SubdivisionView;

    closed spec fn view(&self) -> SubdivisionView {
        SubdivisionView {
            tris: self.tris@,
            depths: Seq::new(self.depths@.len(), |i: int| self.depths@[i] as int),
            max_depth: self.max_depth as int,
            rounds: self.rounds as int,
            changed: self.changed,
            split_faces: self.split_faces as int,
            start_tris: self.start_tris as int,
        }
    }
}

impl SubdivisionView {
    pub open spec fn inv(self) -> bool {
        &&& self.depths.len() == self.tris.len()
        &&& 0 <= self.rounds <= self.max_depth
        &&& self.tris.len() == self.start_tris + 2 * self.split_faces
        &&& 0 <= self.split_faces
        &&& 0 <= self.start_tris
    }

    /// Another round is due: the rounds are not used up, and the last one
    /// changed something.
    pub open spec fn goes_on(self) -> bool {
        self.rounds < self.max_depth && self.changed
    }

    /// The round over all faces.
    pub open spec fn next_round(self, bad: Seq<bool>, n_verts: int) -> Round {
        round(self.tris, self.depths, bad, self.max_depth, n_verts, self.tris.len())
    }
}

impl Subdivision {
    pub closed spec fn wf(&self) -> bool {
        self@.inv()
    }

    pub fn new(tris: Vec<[u32; 3]>, max_depth: usize) -> (res: Self)
        ensures
            res.wf(),
            res@ == (SubdivisionView {
                tris: tris@,
                depths: Seq::new(tris@.len(), |i: int| 0int),
                max_depth: max_depth as int,
                rounds: 0,
                changed: true,
                split_faces: 0,
                start_tris: tris@.len() as int,
            }),
    {
        let n: usize = tris.len();
        let mut depths: Vec<usize> = Vec::new();
        let mut i: usize = 0;
        while i < n
            invariant
                i <= n,
                depths@.len() == i,
                forall|k: int| 0 <= k < i ==> #[trigger] depths@[k] == 0,
            decreases n - i,
        {
            depths.push(0);
            i += 1;
        }
        let res = Subdivision { tris, depths, max_depth, rounds: 0, changed: true, split_faces: 0, start_tris: n };
        assert(res@.depths =~= Seq::new(tris@.len(), |i: int| 0int));
        res
    }

    /// Whether another round is due.
    pub fn goes_on(&self) -> (b: bool)
        ensures
            b == self@.goes_on(),
    {
        self.rounds < self.max_depth && self.changed
    }

    /// Whether face `f` may be split in this round.
    pub fn may_split(&self, f: usize) -> (b: bool)
        requires
            self.wf(),
            f < self@.tris.len(),
        ensures
            b == (self@.depths[f as int] < self@.max_depth),
    {
        self.depths[f] < self.max_depth
    }

    /// The triangles.
    pub fn tris(&self) -> (t: &Vec<[u32; 3]>)
        ensures
            t@ == self@.tris,
    {
        &self.tris
    }

    /// One round: splits the faces that are bad and may be split. Returns
    /// them; the new vertex of the `k`-th is vertex `n_verts + k`.
    pub fn run_round(&mut self, bad: &Vec<bool>, n_verts: u32) -> (split: Vec<u32>)
        requires
            old(self).wf(),
            old(self)@.goes_on(),
            bad@.len() == old(self)@.tris.len(),
            n_verts + old(self)@.tris.len() <= u32::MAX,
            old(self)@.split_faces + old(self)@.tris.len() <= usize::MAX,
        ensures
            final(self).wf(),
            ({
                let (v, w) = (old(self)@, final(self)@);
                let r = v.next_round(bad@, n_verts as int);
                &&& split@ == r.split
                &&& w == (SubdivisionView {
                    tris: r.tris,
                    depths: r.depths,
                    rounds: v.rounds + 1,
                    changed: r.split.len() > 0,
                    split_faces: v.split_faces + r.split.len(),
                    ..v
                })
            }),
    {
        let ghost v = self@;
        let n: usize = self.tris.len();
        let mut tris: Vec<[u32; 3]> = Vec::new();
        let mut depths: Vec<usize> = Vec::new();
        let mut split: Vec<u32> = Vec::new();
        let mut f: usize = 0;
        while f < n
            invariant
                *self == *old(self),
                v == self@,
                v.inv(),
                n == v.tris.len(),
                bad@.len() == n,
                n_verts + n <= u32::MAX,
                f <= n,
                split@.len() <= f,
                tris@ == round(v.tris, v.depths, bad@, v.max_depth, n_verts as int, f as nat).tris,
                split@ == round(v.tris, v.depths, bad@, v.max_depth, n_verts as int, f as nat).split,
                depths@.len() == round(v.tris, v.depths, bad@, v.max_depth, n_verts as int, f as nat).depths.len(),
                forall|k: int|
                    0 <= k < depths@.len() ==> #[trigger] depths@[k] as int == round(
                        v.tris,
                        v.depths,
                        bad@,
                        v.max_depth,
                        n_verts as int,
                        f as nat,
                    ).depths[k],
            decreases n - f,
        {
            let t: [u32; 3] = self.tris[f];
            let d: usize = self.depths[f];
            assert(v.depths[f as int] == d);
            let ghost before = tris@;
            let ghost depths0 = depths@;
            let ghost r0 = round(v.tris, v.depths, bad@, v.max_depth, n_verts as int, f as nat);
            if d < self.max_depth && bad[f] {
                let c: u32 = n_verts + split.len() as u32;
                let (a, b, e): ([u32; 3], [u32; 3], [u32; 3]) = ([t[0], t[1], c], [t[1], t[2], c], [t[2], t[0], c]);
                tris.push(a);
                tris.push(b);
                tris.push(e);
                depths.push(d + 1);
                depths.push(d + 1);
                depths.push(d + 1);
                split.push(f as u32);
                proof {
                    assert(tris@ =~= before + children(t, c));
                }
            } else {
                tris.push(t);
                depths.push(d);
            }
            f += 1;
        }
        proof {
            law_split_adds_two(v.tris, v.depths, bad@, v.max_depth, n_verts as int, n as nat);
        }
        self.changed = split.len() > 0;
        self.split_faces = self.split_faces + split.len();
        self.rounds = self.rounds + 1;
        self.tris = tris;
        self.depths = depths;
        proof {
            let r = v.next_round(bad@, n_verts as int);
            assert(self@.depths =~= r.depths);
        }
        split
    }

    /// The triangles and what was done.
    pub fn finish(self) -> (res: (Vec<[u32; 3]>, SubdivideStats))
        requires
            self.wf(),
        ensures
            res.0@ == self@.tris,
            res.1.split_faces == self@.split_faces,
            res.1.added_tris == 2 * self@.split_faces,
            forall|i: int| 0 <= i < self@.depths.len() ==> (#[trigger] self@.depths[i]) <= res.1.max_depth_reached,
            self@.depths.len() == 0 ==> res.1.max_depth_reached == 0,
            self@.depths.len() > 0 ==> exists|i: int|
                0 <= i < self@.depths.len() && #[trigger] self@.depths[i] == res.1.max_depth_reached,
    {
        let mut deepest: usize = 0;
        let mut i: usize = 0;
        while i < self.depths.len()
            invariant
                i <= self.depths@.len(),
                forall|k: int| 0 <= k < i ==> (#[trigger] self.depths@[k]) <= deepest,
                i == 0 ==> deepest == 0,
                i > 0 ==> exists|k: int| 0 <= k < i && #[trigger] self.depths@[k] == deepest,
            decreases self.depths@.len() - i,
        {
            if i == 0 || self.depths[i] > deepest {
                deepest = self.depths[i];
            }
            i += 1;
        }
        let added: usize = self.tris.len() - self.start_tris;
        let stats = SubdivideStats {
            split_faces: self.split_faces,
            added_tris: added,
            max_depth_reached: deepest,
        };
        proof {
            assert forall|k: int| 0 <= k < self@.depths.len() implies (#[trigger] self@.depths[k]) <= deepest by {
                assert(self.depths@[k] <= deepest);
            }
            if self@.depths.len() > 0 {
                let k = choose|k: int| 0 <= k < self.depths@.len() && #[trigger] self.depths@[k] == deepest;
                assert(self@.depths[k] == deepest);
            }
        }
        (self.tris, stats)
    }
}

/// The faces that a round splits are those that are bad and not divided to the
/// full depth yet, in their order.
pub proof fn law_which_faces_are_split(
    tris: Seq<[u32; 3]>,
    depths: Seq<int>,
    bad: Seq<bool>,
    max_depth: int,
    n_verts: int,
    n: nat,
    f: u32,
)
    requires
        n <= u32::MAX,
    ensures
        ({
            let r = round(tris, depths, bad, max_depth, n_verts, n);
            &&& r.split.contains(f) <==> f < n && bad[f as int] && depths[f as int] < max_depth
            &&& forall|i: int, j: int| 0 <= i < j < r.split.len() ==> #[trigger] r.split[i] < #[trigger] r.split[j]
            &&& forall|i: int| 0 <= i < r.split.len() ==> (#[trigger] r.split[i]) < n
        }),
    decreases n,
{
    if n > 0 {
        law_which_faces_are_split(tris, depths, bad, max_depth, n_verts, (n - 1) as nat, f);
        let r = round(tris, depths, bad, max_depth, n_verts, (n - 1) as nat);
        crate::sets::lemma_push_contains(r.split, (n - 1) as u32, f);
    }
}

/// In a round, the face at `f` was split around the point numbered `k` and its
/// three parts stand at `i`, one deeper than it was.
pub open spec fn parts_stand_at(t: [u32; 3], depth: int, n_verts: int, r: Round, f: int, i: int, k: int) -> bool {
    let c = (n_verts + k) as u32;
    &&& 0 <= k < r.split.len() && r.split[k] == f as u32
    &&& 0 <= i && i + 2 < r.tris.len() && r.tris.len() == r.depths.len()
    &&& r.tris[i][0] == t[0] && r.tris[i][1] == t[1] && r.tris[i][2] == c
    &&& r.tris[i + 1][0] == t[1] && r.tris[i + 1][1] == t[2] && r.tris[i + 1][2] == c
    &&& r.tris[i + 2][0] == t[2] && r.tris[i + 2][1] == t[0] && r.tris[i + 2][2] == c
    &&& r.depths[i] == depth + 1 && r.depths[i + 1] == depth + 1 && r.depths[i + 2] == depth + 1
}

/// In a round, the face stands at `i` as it was.
pub open spec fn stays_at(t: [u32; 3], depth: int, r: Round, i: int) -> bool {
    0 <= i < r.tris.len() && r.tris.len() == r.depths.len() && r.tris[i] == t && r.depths[i] == depth
}

/// A face that is split gives way to three, one deeper, around a point of its
/// own; any other face stays as it is.
pub proof fn law_what_becomes_of_a_face(
    tris: Seq<[u32; 3]>,
    depths: Seq<int>,
    bad: Seq<bool>,
    max_depth: int,
    n_verts: int,
    n: nat,
    f: int,
)
    requires
        0 <= f < n <= u32::MAX,
    ensures
        ({
            let r = round(tris, depths, bad, max_depth, n_verts, n);
            if bad[f] && depths[f] < max_depth {
                exists|i: int, k: int| #[trigger] parts_stand_at(tris[f], depths[f], n_verts, r, f, i, k)
            } else {
                exists|i: int| #[trigger] stays_at(tris[f], depths[f], r, i)
            }
        }),
    decreases n,
{
    law_split_adds_two(tris, depths, bad, max_depth, n_verts, n);
    law_split_adds_two(tris, depths, bad, max_depth, n_verts, (n - 1) as nat);
    let q = round(tris, depths, bad, max_depth, n_verts, (n - 1) as nat);
    let r = round(tris, depths, bad, max_depth, n_verts, n);
    let splits = bad[f] && depths[f] < max_depth;
    if f < n - 1 {
        law_what_becomes_of_a_face(tris, depths, bad, max_depth, n_verts, (n - 1) as nat, f);
        assert forall|x: int| 0 <= x < q.tris.len() implies #[trigger] r.tris[x] == q.tris[x] && r.depths[x] == q.depths[x] by {
        }
        if splits {
            let (i, k) = choose|i: int, k: int| #[trigger] parts_stand_at(tris[f], depths[f], n_verts, q, f, i, k);
            assert(r.tris[i] == q.tris[i] && r.tris[i + 1] == q.tris[i + 1] && r.tris[i + 2] == q.tris[i + 2]);
            assert(r.split[k] == q.split[k]);
            assert(parts_stand_at(tris[f], depths[f], n_verts, r, f, i, k));
        } else {
            let i = choose|i: int| #[trigger] stays_at(tris[f], depths[f], q, i);
            assert(r.tris[i] == q.tris[i]);
            assert(stays_at(tris[f], depths[f], r, i));
        }
    } else {
        let (i, k) = (q.tris.len() as int, q.split.len() as int);
        if splits {
            let c = children(tris[f], (n_verts + k) as u32);
            assert(r.tris[i] == c[0] && r.tris[i + 1] == c[1] && r.tris[i + 2] == c[2]);
            assert(r.split[k] == f as u32);
            assert(parts_stand_at(tris[f], depths[f], n_verts, r, f, i, k));
        } else {
            assert(stays_at(tris[f], depths[f], r, i));
        }
    }
}

/// No face is divided beyond the full depth.
pub proof fn law_depth_is_bounded(
    tris: Seq<[u32; 3]>,
    depths: Seq<int>,
    bad: Seq<bool>,
    max_depth: int,
    n_verts: int,
    n: nat,
    i: int,
)
    requires
        forall|f: int| 0 <= f < n ==> (#[trigger] depths[f]) <= max_depth,
        0 <= i < round(tris, depths, bad, max_depth, n_verts, n).depths.len(),
    ensures
        round(tris, depths, bad, max_depth, n_verts, n).depths[i] <= max_depth,
    decreases n,
{
    if n > 0 {
        let q = round(tris, depths, bad, max_depth, n_verts, (n - 1) as nat);
        assert(depths[n - 1] <= max_depth);
        if i < q.depths.len() {
            law_depth_is_bounded(tris, depths, bad, max_depth, n_verts, (n - 1) as nat, i);
        }
    }
}

/// Rounds go on while faces are split, up to the full depth: at first always
/// where there is a depth, and no more after a round that split nothing.
pub proof fn law_rounds_go_on_while_faces_are_split(v: SubdivisionView)
    requires
        v.inv(),
    ensures
        v.rounds == v.max_depth ==> !v.goes_on(),
        !v.changed ==> !v.goes_on(),
        v.rounds < v.max_depth && v.changed ==> v.goes_on(),
{
}

} // verus!
