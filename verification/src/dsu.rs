//! Disjoint-set union with path compression and union by rank.
//!
//! The decomposition keeps one set per primitive: the representative of a
//! face is the primitive that currently subsumes it.

use vstd::arithmetic::power2::{lemma2_to64, lemma_pow2_strictly_increases, lemma_pow2_unfold, pow2};
use vstd::prelude::*;

verus! {

/// What a [`Dsu`] stands for: the parent of every element, the representative
/// at which its chain of parents ends, and the rank by which a union picks its
/// winner.
pub struct DsuView {
    pub parent: Seq<u32>,
    pub rep: Seq<u32>,
    pub rank: Seq<u8>,
}

impl DsuView {
    /// `n` singletons, all of rank zero.
    pub open spec fn singletons(n: nat) -> DsuView {
        DsuView {
            parent: Seq::new(n, |i: int| i as u32),
            rep: Seq::new(n, |i: int| i as u32),
            rank: Seq::new(n, |i: int| 0u8),
        }
    }

    /// Parents and representatives are elements, a set keeps its
    /// representative up the chain, what represents itself is its own parent
    /// and the other way round, and the rank of a root leaves room.
    pub open spec fn consistent(self) -> bool {
        &&& self.len() <= u32::MAX
        &&& self.parent.len() == self.len()
        &&& self.rank.len() == self.len()
        &&& forall|x: int|
            #![trigger self.rep[x]]
            #![trigger self.parent[x]]
            0 <= x < self.len() ==> {
                &&& self.parent[x] < self.len()
                &&& self.rep[x] < self.len()
                &&& self.rep[self.rep[x] as int] == self.rep[x]
                &&& self.rep[self.parent[x] as int] == self.rep[x]
                &&& self.parent[x] == x <==> self.rep[x] == x
            }
        &&& forall|x: int| 0 <= x < self.len() && self.rep[x] == x ==> (#[trigger] self.rank[x]) < 32
    }

    pub open spec fn len(self) -> nat {
        self.rep.len()
    }

    /// `x` represents its own set.
    pub open spec fn is_root(self, x: u32) -> bool {
        x < self.rep.len() && self.rep[x as int] == x
    }

    /// `x` and `y` are in one set.
    pub open spec fn same(self, x: u32, y: u32) -> bool {
        self.rep[x as int] == self.rep[y as int]
    }

    /// The set of `loser` joins the set of `winner`; every other set stays.
    /// Equal ranks bump the rank of the winner.
    pub open spec fn linked(self, winner: u32, loser: u32) -> DsuView {
        if winner == loser {
            self
        } else {
            DsuView {
                parent: self.parent.update(loser as int, winner),
                rep: relabel(self.rep, loser, winner),
                rank: if self.rank[winner as int] == self.rank[loser as int] {
                    self.rank.update(winner as int, (self.rank[winner as int] + 1) as u8)
                } else {
                    self.rank
                },
            }
        }
    }

    /// Every element on the chain of parents from `x` is made a child of the
    /// root; no other parent changes.
    pub open spec fn compressed(self, x: u32) -> DsuView {
        DsuView {
            parent: Seq::new(
                self.parent.len(),
                |y: int|
                    if on_chain(self.parent, x, y as u32) {
                        self.rep[x as int]
                    } else {
                        self.parent[y]
                    },
            ),
            ..self
        }
    }

    /// The root that wins a union of the roots `ra` and `rb`: the one of
    /// higher rank, the first of the two on a tie.
    pub open spec fn winner(self, ra: u32, rb: u32) -> u32 {
        if self.rank[ra as int] < self.rank[rb as int] {
            rb
        } else {
            ra
        }
    }

    /// The sets of the roots `ra` and `rb` become one.
    pub open spec fn united(self, ra: u32, rb: u32) -> DsuView {
        let w = self.winner(ra, rb);
        self.linked(w, if w == ra { rb } else { ra })
    }
}

/// The element `k` steps up the chain of parents from `x`.
pub open spec fn up(parent: Seq<u32>, x: u32, k: nat) -> u32
    decreases k,
{
    if k == 0 {
        x
    } else {
        parent[up(parent, x, (k - 1) as nat) as int]
    }
}

/// `y` is `x`, or a parent further up its chain.
pub open spec fn on_chain(parent: Seq<u32>, x: u32, y: u32) -> bool {
    exists|k: nat| #[trigger] up(parent, x, k) == y
}

/// `rep` with every `from` replaced by `to`.
pub open spec fn relabel(rep: Seq<u32>, from: u32, to: u32) -> Seq<u32> {
    Seq::new(rep.len(), |i: int| if rep[i] == from { to } else { rep[i] })
}

/// How many entries of `rep` are `r`.
pub open spec fn class_size(rep: Seq<u32>, r: u32) -> nat
    decreases rep.len(),
{
    if rep.len() == 0 {
        0
    } else {
        class_size(rep.drop_last(), r) + (if rep.last() == r { 1nat } else { 0nat })
    }
}

proof fn lemma_class_size_merge(rep: Seq<u32>, winner: u32, loser: u32)
    requires
        winner != loser,
    ensures
        ({
            let after = relabel(rep, loser, winner);
            &&& class_size(after, winner) == class_size(rep, winner) + class_size(rep, loser)
            &&& forall|r: u32| r != winner && r != loser ==> #[trigger] class_size(after, r) == class_size(rep, r)
        }),
    decreases rep.len(),
{
    let after = relabel(rep, loser, winner);
    if rep.len() > 0 {
        lemma_class_size_merge(rep.drop_last(), winner, loser);
        assert(after.drop_last() =~= relabel(rep.drop_last(), loser, winner));
        assert forall|r: u32| r != winner && r != loser implies #[trigger] class_size(after, r)
            == class_size(rep, r) by {
            assert(class_size(after.drop_last(), r) == class_size(rep.drop_last(), r));
        }
    }
}

proof fn lemma_class_size_bound(rep: Seq<u32>, r: u32)
    ensures
        class_size(rep, r) <= rep.len(),
    decreases rep.len(),
{
    if rep.len() > 0 {
        lemma_class_size_bound(rep.drop_last(), r);
    }
}

proof fn lemma_class_size_member(rep: Seq<u32>, i: int)
    requires
        0 <= i < rep.len(),
    ensures
        class_size(rep, rep[i]) >= 1,
    decreases rep.len(),
{
    if i < rep.len() - 1 {
        assert(rep.drop_last()[i] == rep[i]);
        lemma_class_size_member(rep.drop_last(), i);
    }
}

/// Disjoint sets over `0..n`.
pub struct Dsu {
    parent: Vec<u32>,
    rank: Vec<u8>,
    rep: Ghost<Seq<u32>>,
    depth: Ghost<Seq<nat>>,
}

impl View for Dsu {
    type V = DsuView;

    closed spec fn view(&self) -> DsuView {
        DsuView { parent: self.parent@, rep: self.rep@, rank: self.rank@ }
    }
}

impl Dsu {
    /// Every parent chain ends at the representative of its set, and a root
    /// of rank `k` has at least `2^k` elements under it.
    pub closed spec fn wf(&self) -> bool {
        let n = self.parent@.len();
        &&& self.forest()
        &&& forall|r: u32| r < n && self.parent@[r as int] == r ==> pow2(
            #[trigger] self.rank@[r as int] as nat,
        ) <= class_size(self.rep@, r)
    }

    closed spec fn forest(&self) -> bool {
        let n = self.parent@.len();
        &&& n <= u32::MAX
        &&& self.rank@.len() == n
        &&& self.rep@.len() == n
        &&& self.depth@.len() == n
        &&& forall|x: int|
            #![trigger self.parent@[x]]
            #![trigger self.rep@[x]]
            0 <= x < n ==> {
                &&& self.parent@[x] < n
                &&& self.rep@[x] < n
                &&& self.rep@[self.parent@[x] as int] == self.rep@[x]
                &&& self.parent@[self.rep@[x] as int] == self.rep@[x]
                &&& self.parent@[x] == x ==> self.rep@[x] == x
                &&& self.parent@[x] != x ==> self.depth@[self.parent@[x] as int] < self.depth@[x]
                &&& self.rep@[x] != x ==> self.depth@[self.rep@[x] as int] < self.depth@[x]
            }
    }

    /// The view of every well-formed value is consistent.
    pub proof fn lemma_view(&self)
        requires
            self.wf(),
        ensures
            self@.consistent(),
    {
        let v = self@;
        assert forall|x: int| #![trigger v.rep[x]] #![trigger v.parent[x]] 0 <= x < v.len() implies ({
            &&& v.parent[x] < v.len()
            &&& v.rep[x] < v.len()
            &&& v.rep[v.rep[x] as int] == v.rep[x]
            &&& v.rep[v.parent[x] as int] == v.rep[x]
            &&& v.parent[x] == x <==> v.rep[x] == x
        }) by {
            let r = self.rep@[x];
            assert(self.parent@[x] < self.parent@.len());
            assert(self.parent@[r as int] == r);
        }
        assert forall|x: int| 0 <= x < v.len() && v.rep[x] == x implies (#[trigger] v.rank[x]) < 32 by {
            self.lemma_rank_small(x as u32);
        }
    }

    /// No rank reaches 32: a class would need more than `u32::MAX` elements.
    proof fn lemma_rank_small(&self, r: u32)
        requires
            self.wf(),
            r < self@.len(),
            self@.rep[r as int] == r,
        ensures
            self.rank@[r as int] < 32,
    {
        assert(self.parent@[r as int] == r);
        lemma_class_size_bound(self.rep@, r);
        lemma2_to64();
        if self.rank@[r as int] > 32 {
            lemma_pow2_strictly_increases(32, self.rank@[r as int] as nat);
        }
    }

    /// `n` singletons.
    pub fn new(n: usize) -> (res: Self)
        requires
            n <= u32::MAX,
        ensures
            res.wf(),
            res@ == DsuView::singletons(n as nat),
    {
        let mut parent: Vec<u32> = Vec::with_capacity(n);
        let mut rank: Vec<u8> = Vec::with_capacity(n);
        let mut i: u32 = 0;
        while i < n as u32
            invariant
                i <= n <= u32::MAX,
                parent@.len() == i,
                rank@.len() == i,
                forall|k: int| 0 <= k < i ==> parent@[k] == k,
                forall|k: int| 0 <= k < i ==> rank@[k] == 0,
            decreases n - i,
        {
            parent.push(i);
            rank.push(0);
            i += 1;
        }
        let ghost rep = parent@;
        let res = Dsu { parent, rank, rep: Ghost(rep), depth: Ghost(Seq::new(n as nat, |k: int| 0nat)) };
        proof {
            lemma2_to64();
            assert forall|r: u32| r < n && res.parent@[r as int] == r implies pow2(
                #[trigger] res.rank@[r as int] as nat,
            ) <= class_size(res.rep@, r) by {
                lemma_class_size_member(res.rep@, r as int);
            }
            assert(res@.rep =~= DsuView::singletons(n as nat).rep);
            assert(res@.parent =~= DsuView::singletons(n as nat).parent);
            assert(res@.rank =~= DsuView::singletons(n as nat).rank);
        }
        res
    }

    /// How many elements there are.
    pub fn len(&self) -> (n: usize)
        requires
            self.wf(),
        ensures
            n == self@.len(),
    {
        self.parent.len()
    }

    /// The representative of the set of `x`. What lies on the way to it
    /// becomes its child; no set changes.
    pub fn find(&mut self, x: u32) -> (root: u32)
        requires
            old(self).wf(),
            x < old(self)@.len(),
        ensures
            final(self).wf(),
            final(self)@ == old(self)@.compressed(x),
            root == old(self)@.rep[x as int],
            old(self)@.is_root(root),
    {
        let mut root: u32 = x;
        while self.parent[root as usize] != root
            invariant
                self.wf(),
                *self == *old(self),
                x < self.parent@.len(),
                root < self.parent@.len(),
                self.rep@[root as int] == self.rep@[x as int],
            decreases self.depth@[root as int],
        {
            root = self.parent[root as usize];
        }
        let ghost first = self.parent@;
        let mut cur: u32 = x;
        let ghost mut k: nat = 0;
        while self.parent[cur as usize] != root
            invariant
                self.wf(),
                self.rep@ == old(self).rep@,
                self.rank@ == old(self).rank@,
                self.depth@ == old(self).depth@,
                first == old(self).parent@,
                self.parent@.len() == first.len(),
                cur < self.parent@.len(),
                root < self.parent@.len(),
                x < self.parent@.len(),
                self.rep@[x as int] == root,
                self.rep@[cur as int] == root,
                self.parent@[root as int] == root,
                first[root as int] == root,
                cur == up(first, x, k),
                forall|j: nat| j < k ==> (#[trigger] up(first, x, j)) < first.len(),
                forall|j: nat| j < k ==> self.depth@[(#[trigger] up(first, x, j)) as int] > self.depth@[cur as int],
                forall|j: nat| j < k ==> self.parent@[(#[trigger] up(first, x, j)) as int] == root,
                forall|y: int|
                    0 <= y < first.len() && !met(first, x, k, y as u32) ==> #[trigger] self.parent@[y] == first[y],
            decreases self.depth@[cur as int],
        {
            assert(self.parent@[cur as int] == first[cur as int]) by {
                if met(first, x, k, cur) {
                    let j = choose|j: nat| j < k && #[trigger] up(first, x, j) == cur;
                    assert(self.depth@[up(first, x, j) as int] > self.depth@[cur as int]);
                }
            }
            let next: u32 = self.parent[cur as usize];
            let ghost before = *self;
            self.parent.set(cur as usize, root);
            proof {
                assert(before.parent@[cur as int] != root);
                assert(cur != root);
                assert(self.rep@ == before.rep@);
                assert forall|y: int| 0 <= y < self.parent@.len() implies ({
                    &&& (#[trigger] self.parent@[y]) < self.parent@.len()
                    &&& self.rep@[y] < self.parent@.len()
                    &&& self.rep@[self.parent@[y] as int] == self.rep@[y]
                    &&& self.parent@[self.rep@[y] as int] == self.rep@[y]
                    &&& self.parent@[y] == y ==> self.rep@[y] == y
                    &&& self.parent@[y] != y ==> self.depth@[self.parent@[y] as int] < self.depth@[y]
                    &&& self.rep@[y] != y ==> self.depth@[self.rep@[y] as int] < self.depth@[y]
                }) by {
                    assert(before.parent@[y] < before.parent@.len());
                    let r = before.rep@[y];
                    assert(before.parent@[r as int] == r);
                }
                assert forall|r: u32| r < self.parent@.len() && self.parent@[r as int] == r implies pow2(
                    #[trigger] self.rank@[r as int] as nat,
                ) <= class_size(self.rep@, r) by {
                    assert(before.parent@[r as int] == r);
                    assert(before.rank@[r as int] == self.rank@[r as int]);
                }
                assert(next == up(first, x, k + 1));
                assert forall|y: int| 0 <= y < first.len() && !met(first, x, k + 1, y as u32) implies #[trigger]
                    self.parent@[y] == first[y] by {
                    if y == cur {
                        assert(up(first, x, k) == y as u32);
                    }
                    if met(first, x, k, y as u32) {
                        let j = choose|j: nat| j < k && #[trigger] up(first, x, j) == y as u32;
                        assert(up(first, x, j) == y as u32);
                    }
                    assert(before.parent@[y] == first[y]);
                }
                k = k + 1;
            }
            cur = next;
        }
        proof {
            let v = old(self)@;
            assert(self.parent@[cur as int] == first[cur as int]) by {
                if met(first, x, k, cur) {
                    let j = choose|j: nat| j < k && #[trigger] up(first, x, j) == cur;
                    assert(self.depth@[up(first, x, j) as int] > self.depth@[cur as int]);
                }
            }
            assert forall|y: int| 0 <= y < first.len() implies #[trigger] self.parent@[y] == v.compressed(x).parent[y] by {
                if on_chain(first, x, y as u32) {
                    let j = choose|j: nat| #[trigger] up(first, x, j) == y as u32;
                    if j > k {
                        lemma_up_stays(first, x, root, (k + 1) as nat, j);
                    }
                } else {
                    assert(!met(first, x, k, y as u32)) by {
                        if met(first, x, k, y as u32) {
                            let j = choose|j: nat| j < k && #[trigger] up(first, x, j) == y as u32;
                            assert(up(first, x, j) == y as u32);
                        }
                    }
                }
            }
            assert(self.parent@ =~= v.compressed(x).parent);
        }
        root
    }

    /// Joins the sets of `a` and `b`; returns the root of the joined set.
    pub fn union(&mut self, a: u32, b: u32) -> (root: u32)
        requires
            old(self).wf(),
            a < old(self)@.len(),
            b < old(self)@.len(),
        ensures
            final(self).wf(),
            ({
                let ra = old(self)@.rep[a as int];
                let rb = old(self)@.rep[b as int];
                &&& root == old(self)@.winner(ra, rb)
                &&& final(self)@ == old(self)@.compressed(a).compressed(b).united(ra, rb)
            }),
    {
        let ra: u32 = self.find(a);
        let rb: u32 = self.find(b);
        self.union_roots(ra, rb)
    }

    /// Joins two sets given by their roots; returns the root of the joined
    /// set.
    pub fn union_roots(&mut self, ra: u32, rb: u32) -> (root: u32)
        requires
            old(self).wf(),
            old(self)@.is_root(ra),
            old(self)@.is_root(rb),
        ensures
            final(self).wf(),
            root == old(self)@.winner(ra, rb),
            final(self)@ == old(self)@.united(ra, rb),
    {
        if ra == rb {
            return ra;
        }
        if self.rank[ra as usize] < self.rank[rb as usize] {
            self.link(rb, ra);
            rb
        } else {
            self.link(ra, rb);
            ra
        }
    }

    /// Whether `x` represents its set.
    pub fn is_root(&self, x: u32) -> (b: bool)
        requires
            self.wf(),
            x < self@.len(),
        ensures
            b == self@.is_root(x),
    {
        assert(self.parent@[x as int] != x ==> self.rep@[x as int] != x) by {
            let r = self.rep@[x as int];
            assert(self.parent@[r as int] == r);
        }
        self.parent[x as usize] == x
    }

    /// Makes `loser_root` a child of `winner_root`, whatever their ranks.
    pub fn link(&mut self, winner_root: u32, loser_root: u32)
        requires
            old(self).wf(),
            old(self)@.is_root(winner_root),
            old(self)@.is_root(loser_root),
        ensures
            final(self).wf(),
            final(self)@ == old(self)@.linked(winner_root, loser_root),
    {
        if winner_root != loser_root {
            let ghost before = *self;
            proof {
                before.lemma_rank_small(winner_root);
                before.lemma_rank_small(loser_root);
                assert(before.parent@[winner_root as int] == winner_root);
                assert(before.parent@[loser_root as int] == loser_root);
            }
            self.parent.set(loser_root as usize, winner_root);
            if self.rank[winner_root as usize] == self.rank[loser_root as usize] {
                let bumped: u8 = self.rank[winner_root as usize].saturating_add(1);
                self.rank.set(winner_root as usize, bumped);
            }
            let ghost merged = relabel(before.rep@, loser_root, winner_root);
            let ghost deeper = Seq::new(
                before.depth@.len(),
                |i: int| if before.rep@[i] == loser_root {
                    before.depth@[i] + before.depth@[winner_root as int] + 1
                } else {
                    before.depth@[i]
                },
            );
            self.rep = Ghost(merged);
            self.depth = Ghost(deeper);
            proof {
                self.lemma_linked(before, winner_root, loser_root);
            }
        }
    }

    proof fn lemma_linked(self, before: Dsu, winner: u32, loser: u32)
        requires
            before.wf(),
            before@.is_root(winner),
            before@.is_root(loser),
            before.parent@[winner as int] == winner,
            before.parent@[loser as int] == loser,
            winner != loser,
            before.rank@[winner as int] < 32,
            self.parent@ == before.parent@.update(loser as int, winner),
            self.rank@ == (if before.rank@[winner as int] == before.rank@[loser as int] {
                before.rank@.update(winner as int, (before.rank@[winner as int] + 1) as u8)
            } else {
                before.rank@
            }),
            self.rep@ == relabel(before.rep@, loser, winner),
            self.depth@ == Seq::new(
                before.depth@.len(),
                |i: int| if before.rep@[i] == loser {
                    before.depth@[i] + before.depth@[winner as int] + 1
                } else {
                    before.depth@[i]
                },
            ),
        ensures
            self.wf(),
    {
        let n = before.parent@.len();
        assert forall|y: int| 0 <= y < n implies ({
            &&& (#[trigger] self.parent@[y]) < n
            &&& self.rep@[y] < n
            &&& self.rep@[self.parent@[y] as int] == self.rep@[y]
            &&& self.parent@[self.rep@[y] as int] == self.rep@[y]
            &&& self.parent@[y] == y ==> self.rep@[y] == y
            &&& self.parent@[y] != y ==> self.depth@[self.parent@[y] as int] < self.depth@[y]
            &&& self.rep@[y] != y ==> self.depth@[self.rep@[y] as int] < self.depth@[y]
        }) by {
            assert(before.parent@[y] < n);
            let r = before.rep@[y];
            assert(before.parent@[r as int] == r);
            assert(before.rep@[winner as int] == winner);
            assert(before.rep@[loser as int] == loser);
            let p = before.parent@[y];
            assert(before.rep@[p as int] == before.rep@[y]);
        }
        lemma_class_size_merge(before.rep@, winner, loser);
        assert forall|r: u32| r < n && self.parent@[r as int] == r implies pow2(
            #[trigger] self.rank@[r as int] as nat,
        ) <= class_size(self.rep@, r) by {
            assert(before.parent@[r as int] == r);
            assert(pow2(before.rank@[r as int] as nat) <= class_size(before.rep@, r));
            if r == winner {
                assert(pow2(before.rank@[loser as int] as nat) <= class_size(before.rep@, loser));
                lemma_pow2_unfold((before.rank@[winner as int] + 1) as nat);
            }
        }
    }
}

/// `y` is one of the first `k` elements of the chain from `x`.
spec fn met(parent: Seq<u32>, x: u32, k: nat, y: u32) -> bool {
    exists|j: nat| j < k && #[trigger] up(parent, x, j) == y
}

/// A chain that has reached a root stays there.
proof fn lemma_up_stays(parent: Seq<u32>, x: u32, root: u32, k: nat, j: nat)
    requires
        k <= j,
        up(parent, x, k) == root,
        parent[root as int] == root,
    ensures
        up(parent, x, j) == root,
    decreases j,
{
    if j > k {
        lemma_up_stays(parent, x, root, k, (j - 1) as nat);
    }
}

/// Being in one set is an equivalence relation on the elements.
pub proof fn law_same_is_an_equivalence(d: DsuView, x: u32, y: u32, z: u32)
    ensures
        d.same(x, x),
        d.same(x, y) ==> d.same(y, x),
        d.same(x, y) && d.same(y, z) ==> d.same(x, z),
{
}

/// A union of the sets of `a` and `b` joins those two sets and nothing else.
pub proof fn law_union_joins_two_sets(d: DsuView, a: u32, b: u32, x: u32, y: u32)
    requires
        a < d.len(),
        b < d.len(),
        x < d.len(),
        y < d.len(),
    ensures
        d.united(d.rep[a as int], d.rep[b as int]).same(x, y) <==> (d.same(x, y) || (d.same(x, a)
            && d.same(y, b)) || (d.same(x, b) && d.same(y, a))),
{
}

/// A link leaves one root fewer: the loser stops representing a set, every
/// other root stays one.
pub proof fn law_link_removes_one_root(d: DsuView, winner: u32, loser: u32, x: u32)
    requires
        d.is_root(winner),
        d.is_root(loser),
        winner != loser,
        x < d.len(),
    ensures
        d.linked(winner, loser).is_root(x) <==> (d.is_root(x) && x != loser),
{
}

/// What a link does to a consistent state: the winner stays a root, the loser
/// becomes its child, the set of the loser joins that of the winner, no other
/// set changes, and no rank but that of the winner, which rises by one where
/// the two were equal.
pub proof fn law_link_joins_two_sets(d: DsuView, winner: u32, loser: u32, y: int)
    requires
        d.consistent(),
        d.is_root(winner),
        d.is_root(loser),
        winner != loser,
        0 <= y < d.len(),
    ensures
        ({
            let e = d.linked(winner, loser);
            &&& e.is_root(winner)
            &&& !e.is_root(loser)
            &&& e.parent[loser as int] == winner
            &&& y != loser ==> e.parent[y] == d.parent[y]
            &&& e.rep[y] == (if d.rep[y] == loser {
                winner
            } else {
                d.rep[y]
            })
            &&& y != winner ==> e.rank[y] == d.rank[y]
            &&& e.rank[winner as int] == d.rank[winner as int] + (if d.rank[winner as int] == d.rank[loser as int] {
                1int
            } else {
                0int
            })
        }),
{
    assert(d.rank[winner as int] < 32);
}

/// A union of two roots is the same by either call: roots have no chain to
/// shorten.
pub proof fn law_union_of_roots(d: DsuView, ra: u32, rb: u32)
    requires
        d.consistent(),
        d.is_root(ra),
        d.is_root(rb),
    ensures
        d.rep[ra as int] == ra,
        d.rep[rb as int] == rb,
        d.compressed(ra).compressed(rb).united(ra, rb) == d.united(ra, rb),
        d.united(ra, ra) == d,
        d.winner(ra, ra) == ra,
{
    lemma_root_is_compressed(d, ra);
    lemma_root_is_compressed(d, rb);
}

proof fn lemma_root_is_compressed(d: DsuView, r: u32)
    requires
        d.consistent(),
        d.is_root(r),
    ensures
        d.compressed(r) == d,
{
    assert(d.parent[r as int] == r);
    assert forall|y: int| 0 <= y < d.parent.len() implies #[trigger] d.compressed(r).parent[y] == d.parent[y] by {
        if on_chain(d.parent, r, y as u32) {
            let k = choose|k: nat| #[trigger] up(d.parent, r, k) == y as u32;
            lemma_up_stays(d.parent, r, r, 0, k);
        }
    }
    assert(d.compressed(r).parent =~= d.parent);
}

/// After a search from `x`, everything on its chain is a child of the root.
pub proof fn law_find_shortens_the_chain(d: DsuView, x: u32, k: nat)
    requires
        d.consistent(),
        x < d.len(),
    ensures
        d.compressed(x).parent[up(d.parent, x, k) as int] == d.rep[x as int],
        d.compressed(x).rep == d.rep,
        d.compressed(x).rank == d.rank,
{
    lemma_up_in_range(d, x, k);
    let y = up(d.parent, x, k);
    assert(on_chain(d.parent, x, y));
}

proof fn lemma_up_in_range(d: DsuView, x: u32, k: nat)
    requires
        d.consistent(),
        x < d.len(),
    ensures
        up(d.parent, x, k) < d.len(),
    decreases k,
{
    if k > 0 {
        lemma_up_in_range(d, x, (k - 1) as nat);
        assert(d.parent[up(d.parent, x, (k - 1) as nat) as int] < d.len());
    }
}

/// Of two roots the one of higher rank is left, and the first where they rank
/// alike.
pub proof fn law_higher_rank_is_left(d: DsuView, ra: u32, rb: u32)
    ensures
        d.winner(ra, rb) == ra || d.winner(ra, rb) == rb,
        d.rank[ra as int] <= d.rank[d.winner(ra, rb) as int],
        d.rank[rb as int] <= d.rank[d.winner(ra, rb) as int],
        d.rank[ra as int] == d.rank[rb as int] ==> d.winner(ra, rb) == ra,
{
}

} // verus!
