//! The pass that moves single faces between neighbouring primitives.

use crate::faces::FaceRings;
use crate::mesh::Adjacency;
use crate::regroup::{Groups, GroupsView, law_move_keeps_groups, list_without, without};
use crate::sets::{copy_list, is_set, lemma_push_contains, sort_unique};
use vstd::prelude::*;

verus! {

/// What the pass asks for next.
pub enum RebalanceStep {
    /// This face stays where it is: it is alone, or has no other primitive
    /// next to it.
    Stays(u32),
    /// This face may move to one of these groups.
    Try(u32, Vec<u32>),
    /// A round over all faces is over; so many of them moved.
    EndPass(usize),
    Done,
}

/// The state of a rebalance pass.
pub struct RebalanceView {
    pub groups: GroupsView,
    pub max_passes: int,
    /// The round, the next face of it, and how many faces have moved in it.
    pub pass: int,
    pub face: int,
    pub moves: int,
    /// How many faces have moved in the rounds before.
    pub total: int,
}

/// Face `f` has a neighbour in group `g`, which is not its own.
pub open spec fn can_move(v: GroupsView, adj: Adjacency, f: u32, g: u32) -> bool {
    &&& g != v.assignment[f as int]
    &&& v.groups[v.assignment[f as int] as int].len() > 1
    &&& exists|n: u32| #[trigger] adj.has(f, n) && n < v.faces() && v.assignment[n as int] == g
}

impl RebalanceView {
    pub open spec fn inv(self) -> bool {
        &&& self.groups.consistent()
        &&& 0 <= self.pass <= self.max_passes
        &&& 0 <= self.face <= self.groups.faces()
        &&& 0 <= self.moves <= self.face
        &&& 0 <= self.total
    }
}

/// Faces that migrate between primitives.
pub struct Rebalance {
    groups: Groups,
    max_passes: usize,
    pass: usize,
    face: usize,
    moves: usize,
    total: usize,
}

impl View for Rebalance {
    type V = RebalanceView;

    closed spec fn view(&self) -> RebalanceView {
        RebalanceView {
            groups: self.groups@,
            max_passes: self.max_passes as int,
            pass: self.pass as int,
            face: self.face as int,
            moves: self.moves as int,
            total: self.total as int,
        }
    }
}

impl Rebalance {
    pub closed spec fn wf(&self) -> bool {
        self@.inv() && self.groups.wf()
    }

    pub proof fn lemma_inv(&self)
        requires
            self.wf(),
        ensures
            self@.inv(),
    {
    }

    /// Starts from the primitives of a partition, numbered by the first face of
    /// each. With fewer than two there is nothing to balance.
    pub fn new(rings: &mut FaceRings, max_passes: usize) -> (res: Option<Self>)
        requires
            old(rings).wf(),
        ensures
            final(rings).wf(),
            final(rings)@ == old(rings)@,
            match res {
                None => forall|f: int, h: int|
                    0 <= f < old(rings)@.len() && 0 <= h < old(rings)@.len() ==> #[trigger] old(rings)@.owner[f]
                        == #[trigger] old(rings)@.owner[h],
                Some(r) => {
                    &&& r.wf()
                    &&& r@.groups.groups.len() >= 2
                    &&& r@.groups.faces() == old(rings)@.len()
                    &&& forall|f: int, h: int|
                        0 <= f < old(rings)@.len() && 0 <= h < old(rings)@.len() ==> (
                        #[trigger] r@.groups.assignment[f] == #[trigger] r@.groups.assignment[h] <==> old(
                            rings,
                        )@.owner[f] == old(rings)@.owner[h])
                    &&& forall|g: int| 0 <= g < r@.groups.groups.len() ==> is_set(#[trigger] r@.groups.groups[g])
                    &&& forall|g: int, h: int|
                        0 <= g < h < r@.groups.groups.len() ==> (#[trigger] r@.groups.groups[g])[0] < (
                        #[trigger] r@.groups.groups[h])[0]
                    &&& r@.max_passes == max_passes
                    &&& r@.pass == 0
                    &&& r@.face == 0
                    &&& r@.moves == 0
                    &&& r@.total == 0
                },
            },
    {
        let ghost v = rings@;
        let (groups, roots) = Groups::from_rings(rings);
        proof {
            groups.lemma_view();
        }
        if groups.len() < 2 {
            proof {
                assert forall|f: int, h: int| 0 <= f < v.len() && 0 <= h < v.len() implies #[trigger] v.owner[f]
                    == #[trigger] v.owner[h] by {
                    assert(roots@[groups@.assignment[f] as int] == v.owner[f]);
                    assert(roots@[groups@.assignment[h] as int] == v.owner[h]);
                    assert(groups@.assignment[f] < groups@.groups.len());
                    assert(groups@.assignment[h] < groups@.groups.len());
                }
            }
            return None;
        }
        proof {
            assert forall|f: int, h: int| 0 <= f < v.len() && 0 <= h < v.len() implies (#[trigger] groups@.assignment[f]
                == #[trigger] groups@.assignment[h] <==> v.owner[f] == v.owner[h]) by {
                let (x, y) = (groups@.assignment[f] as int, groups@.assignment[h] as int);
                assert(roots@[x] == v.owner[f]);
                assert(roots@[y] == v.owner[h]);
                if x < y {
                    assert(roots@[x] != roots@[y]);
                } else if y < x {
                    assert(roots@[y] != roots@[x]);
                }
            }
        }
        Some(Rebalance { groups, max_passes, pass: 0, face: 0, moves: 0, total: 0 })
    }

    /// The next face, the end of a round, or the end of the pass: rounds stop
    /// at their limit, or when nothing moved in one.
    pub fn step(&mut self, adj: &Adjacency) -> (step: RebalanceStep)
        requires
            old(self).wf(),
            adj.wf(),
            adj.len() == old(self)@.groups.faces(),
            old(self)@.total + old(self)@.moves <= usize::MAX,
        ensures
            final(self).wf(),
            ({
                let (v, w) = (old(self)@, final(self)@);
                let f = v.face as u32;
                match step {
                    RebalanceStep::Done => v.pass == v.max_passes && w == v,
                    RebalanceStep::EndPass(moves) => {
                        &&& v.pass < v.max_passes && v.face == v.groups.faces() && moves == v.moves
                        &&& w == (RebalanceView {
                            pass: if v.moves == 0 { v.max_passes } else { v.pass + 1 },
                            face: 0,
                            moves: 0,
                            total: v.total + v.moves,
                            ..v
                        })
                    },
                    RebalanceStep::Stays(x) => {
                        &&& v.pass < v.max_passes && v.face < v.groups.faces() && x == f
                        &&& forall|g: u32| !(#[trigger] can_move(v.groups, *adj, f, g))
                        &&& w == (RebalanceView { face: v.face + 1, ..v })
                    },
                    RebalanceStep::Try(x, list) => {
                        &&& v.pass < v.max_passes && v.face < v.groups.faces() && x == f
                        &&& list@.len() > 0
                        &&& is_set(list@)
                        &&& forall|g: u32| #[trigger] list@.contains(g) <==> can_move(v.groups, *adj, f, g)
                        &&& w == (RebalanceView { face: v.face + 1, ..v })
                    },
                }
            }),
    {
        if self.pass >= self.max_passes {
            return RebalanceStep::Done;
        }
        let ghost v = self@.groups;
        if self.face >= self.groups.face_count() {
            let moves: usize = self.moves;
            self.total = self.total + moves;
            self.face = 0;
            self.moves = 0;
            if moves == 0 {
                self.pass = self.max_passes;
            } else {
                self.pass = self.pass + 1;
            }
            return RebalanceStep::EndPass(moves);
        }
        let f: u32 = self.face as u32;
        self.face = self.face + 1;
        let here: u32 = self.groups.group_of(f);
        assert(v.assignment[f as int] < v.groups.len());
        if self.groups.group(here as usize).len() <= 1 {
            return RebalanceStep::Stays(f);
        }
        let mut others: Vec<u32> = Vec::new();
        let mut i: usize = 0;
        while i < adj.neighbors[f as usize].len()
            invariant
                self.wf(),
                adj.wf(),
                adj.len() == v.faces(),
                v == self@.groups,
                f < v.faces(),
                here == v.assignment[f as int],
                i <= adj.neighbors@[f as int]@.len(),
                forall|g: u32| #[trigger]
                    others@.contains(g) <==> g != here && exists|k: int|
                        0 <= k < i && v.assignment[#[trigger] adj.neighbors@[f as int]@[k] as int] == g,
            decreases adj.neighbors@[f as int]@.len() - i,
        {
            let n: u32 = adj.neighbors[f as usize][i];
            assert(adj.neighbors@[f as int]@[i as int] < adj.len());
            let g: u32 = self.groups.group_of(n);
            let ghost before = others@;
            if g != here {
                others.push(g);
            }
            proof {
                assert forall|x: u32| #[trigger] others@.contains(x) <==> x != here && exists|k: int|
                    0 <= k < i + 1 && v.assignment[#[trigger] adj.neighbors@[f as int]@[k] as int] == x by {
                    lemma_push_contains(before, g, x);
                    if before.contains(x) {
                        let k = choose|k: int|
                            0 <= k < i && v.assignment[#[trigger] adj.neighbors@[f as int]@[k] as int] == x;
                        assert(v.assignment[adj.neighbors@[f as int]@[k] as int] == x);
                    }
                    if x == g {
                        assert(v.assignment[adj.neighbors@[f as int]@[i as int] as int] == x);
                    }
                }
            }
            i += 1;
        }
        let list = sort_unique(&others);
        proof {
            let s = adj.neighbors@[f as int]@;
            assert forall|g: u32| #[trigger] list@.contains(g) <==> can_move(v, *adj, f, g) by {
                assert(list@.contains(g) <==> others@.contains(g));
                if others@.contains(g) {
                    let k = choose|k: int| 0 <= k < s.len() && v.assignment[#[trigger] s[k] as int] == g;
                    assert(adj.has(f, s[k]));
                    assert(adj.neighbors@[f as int]@[k] < adj.len());
                }
                if can_move(v, *adj, f, g) {
                    let n = choose|n: u32| #[trigger] adj.has(f, n) && n < v.faces() && v.assignment[n as int] == g;
                    let k = choose|k: int| 0 <= k < s.len() && s[k] == n;
                    assert(v.assignment[s[k] as int] == g);
                }
            }
            if list@.len() == 0 {
                assert forall|g: u32| !(#[trigger] can_move(v, *adj, f, g)) by {
                    assert(!list@.contains(g));
                }
            }
        }
        if list.len() == 0 {
            return RebalanceStep::Stays(f);
        }
        RebalanceStep::Try(f, list)
    }

    /// The faces that the two groups would have if face `f` moved to group
    /// `to`: those left behind, and those of the group joined.
    pub fn trial(&self, f: u32, to: u32) -> (lists: (Vec<u32>, Vec<u32>))
        requires
            self.wf(),
            f < self@.groups.faces(),
            to < self@.groups.groups.len(),
        ensures
            lists.0@ == without(self@.groups.groups[self@.groups.assignment[f as int] as int], f),
            lists.1@ == self@.groups.groups[to as int].push(f),
    {
        let here: u32 = self.groups.group_of(f);
        assert(self@.groups.assignment[f as int] < self@.groups.groups.len());
        let left = list_without(self.groups.group(here as usize), f);
        let mut joined = copy_list(self.groups.group(to as usize));
        joined.push(f);
        (left, joined)
    }

    /// Moves the face just tried to group `to`.
    pub fn move_face(&mut self, f: u32, to: u32)
        requires
            old(self).wf(),
            f < old(self)@.groups.faces(),
            to < old(self)@.groups.groups.len(),
            to != old(self)@.groups.assignment[f as int],
            old(self)@.groups.groups[old(self)@.groups.assignment[f as int] as int].len() > 1,
            old(self)@.moves < old(self)@.face,
        ensures
            final(self).wf(),
            final(self)@ == (RebalanceView {
                groups: old(self)@.groups.moved(f, to),
                moves: old(self)@.moves + 1,
                ..old(self)@
            }),
            final(self)@.groups.groups.len() == old(self)@.groups.groups.len(),
    {
        proof {
            law_move_keeps_groups(self@.groups, f, to);
        }
        self.groups.move_face(f, to);
        self.moves = self.moves + 1;
    }

    /// The groups.
    pub fn groups(&self) -> (g: &Groups)
        requires
            self.wf(),
        ensures
            g@ == self@.groups,
            g.wf(),
    {
        &self.groups
    }

    /// How many faces have moved, in all rounds that are over.
    pub fn total(&self) -> (n: usize)
        ensures
            n == self@.total,
    {
        self.total
    }
}

} // verus!
