use cpd::climb::Climb;
use cpd::dsu::Dsu;
use cpd::faces::{walk_faces, FaceRings};
use cpd::numbering::number;
use cpd::order::{rank_ascending, rank_descending, rank_kept_descending};
use cpd::prim::Prim;
use cpd::queue::{MergeQueue, PqEntry};
use cpd::scalar::Scalar;
use cpd::select::{first_least, improve, pick_worst};
use cpd::sets::{
    merge_sorted_unique, set_contains, set_insert, set_remove, shares_member, sort_unique,
};

fn sc(x: f32) -> Scalar {
    Scalar { bits: x.to_bits() }
}

fn scs(xs: &[f32]) -> Vec<Scalar> {
    xs.iter().map(|&x| sc(x)).collect()
}

fn sphere() -> Prim {
    Prim::Sphere {
        center: [sc(0.0); 3],
        r: sc(1.0),
    }
}

fn entry(cost: f32, a: u32, b: u32) -> PqEntry {
    PqEntry {
        cost: sc(cost),
        a,
        b,
        va: 0,
        vb: 0,
        prim: sphere(),
        volume: sc(1.0),
        weighted_volume: sc(1.0),
    }
}

#[test]
fn dsu_starts_with_singletons() {
    let mut d = Dsu::new(4);
    assert_eq!(d.len(), 4);
    for x in 0..4 {
        assert_eq!(d.find(x), x);
        assert!(d.is_root(x));
    }
}

#[test]
fn dsu_union_goes_by_rank_and_first_wins_ties() {
    let mut d = Dsu::new(5);
    assert_eq!(d.union(1, 0), 1);
    // The set of 1 now has rank 1 and wins although it comes second.
    assert_eq!(d.union(2, 0), 1);
    assert_eq!(d.find(0), 1);
    assert_eq!(d.find(2), 1);
    assert!(!d.is_root(2));
    assert_eq!(d.find(3), 3);
    assert_eq!(d.union(0, 2), 1);
}

#[test]
fn dsu_union_roots_joins_two_roots() {
    let mut d = Dsu::new(3);
    assert_eq!(d.union_roots(2, 2), 2);
    assert_eq!(d.union_roots(2, 0), 2);
    assert_eq!(d.find(0), 2);
    assert_eq!(d.union_roots(1, 2), 2);
    assert_eq!(d.find(1), 2);
}

#[test]
fn dsu_link_ignores_rank() {
    let mut d = Dsu::new(4);
    d.link(0, 1);
    d.link(2, 0);
    assert_eq!(d.find(1), 2);
    assert_eq!(d.find(0), 2);
    assert!(d.is_root(2));
    d.link(3, 3);
    assert!(d.is_root(3));
}

#[test]
fn rings_start_alone() {
    let mut r = FaceRings::new(3);
    assert_eq!(r.len(), 3);
    for f in 0..3 {
        assert_eq!(r.faces(f, 1), vec![f]);
        assert_eq!(r.owner(f), f);
        assert!(r.is_root(f));
    }
}

#[test]
fn splice_joins_two_rings() {
    let mut r = FaceRings::new(5);
    r.splice(0, 1);
    assert_eq!(r.faces(0, 2), vec![0, 1]);
    r.splice(2, 3);
    r.splice(0, 2);
    // The head, the other ring from its second face, its head, the rest.
    assert_eq!(r.faces(0, 4), vec![0, 3, 2, 1]);
    for f in 0..4 {
        assert_eq!(r.owner(f), 0);
    }
    assert_eq!(r.faces(4, 1), vec![4]);
    assert!(!r.is_root(2));
}

#[test]
fn groups_become_rings() {
    let groups = vec![vec![3, 1], vec![0], vec![], vec![4, 2, 5]];
    let mut r = FaceRings::from_groups(&groups, 6);
    assert_eq!(r.faces(3, 2), vec![3, 1]);
    assert_eq!(r.faces(0, 1), vec![0]);
    assert_eq!(r.faces(4, 3), vec![4, 2, 5]);
    assert_eq!(r.owner(1), 3);
    assert_eq!(r.owner(5), 4);
    assert!(!r.is_root(2));
}

#[test]
fn walk_follows_the_links() {
    assert_eq!(walk_faces(1, 4, &vec![2, 0, 1]), vec![1, 0, 2, 1]);
    assert_eq!(walk_faces(7, 0, &vec![]), Vec::<u32>::new());
}

#[test]
fn merging_sorted_lists() {
    assert_eq!(
        merge_sorted_unique(&vec![1, 3, 5], &vec![2, 3, 9]),
        vec![1, 2, 3, 5, 9]
    );
    assert_eq!(merge_sorted_unique(&vec![], &vec![4]), vec![4]);
    assert_eq!(merge_sorted_unique(&vec![4], &vec![]), vec![4]);
    // On lists that are not sets the heads decide.
    assert_eq!(
        merge_sorted_unique(&vec![5, 1], &vec![3]),
        vec![3, 5, 1]
    );
}

#[test]
fn sets_insert_remove_and_share() {
    let mut s = sort_unique(&vec![5, 1, 5, 3]);
    assert_eq!(s, vec![1, 3, 5]);
    set_insert(&mut s, 4);
    set_insert(&mut s, 4);
    assert_eq!(s, vec![1, 3, 4, 5]);
    set_remove(&mut s, 3);
    set_remove(&mut s, 2);
    assert_eq!(s, vec![1, 4, 5]);
    assert!(set_contains(&s, 5));
    assert!(!set_contains(&s, 3));
    assert!(shares_member(&s, &vec![0, 5]));
    assert!(!shares_member(&s, &vec![0, 2, 6]));
    assert!(!shares_member(&s, &vec![]));
    // Members may be listed twice.
    assert!(shares_member(&vec![1, 1, 2, 7, 7], &vec![0, 7, 7]));
    assert!(!shares_member(&vec![1, 1, 2], &vec![0, 0, 3, 3]));
}

#[test]
fn scalars_compare_like_floats() {
    let xs = [
        f32::NEG_INFINITY,
        -1.5,
        -1e-40,
        -0.0,
        0.0,
        1e-45,
        1.0,
        f32::MAX,
        f32::INFINITY,
        f32::NAN,
    ];
    for &x in &xs {
        for &y in &xs {
            assert_eq!(sc(x).lt(sc(y)), x < y);
            assert_eq!(sc(x).le(sc(y)), x <= y);
            assert_eq!(sc(x).gt(sc(y)), x > y);
            assert_eq!(sc(x).ge(sc(y)), x >= y);
        }
        assert_eq!(sc(x).is_nan(), x.is_nan());
        assert_eq!(sc(x).is_finite(), x.is_finite());
    }
    assert_eq!(Scalar::one(), sc(1.0));
    assert_eq!(Scalar::zero(), sc(0.0));
    assert_eq!(Scalar::infinity(), sc(f32::INFINITY));
    assert_eq!(Scalar::neg_infinity(), sc(f32::NEG_INFINITY));
    assert_eq!(sc(2.0).min(sc(1.0)), sc(1.0));
    assert_eq!(sc(f32::NAN).min(sc(1.0)), sc(1.0));
    assert_eq!(sc(1.0).min(sc(f32::NAN)), sc(1.0));
    assert_eq!(sc(2.0).max(sc(3.0)), sc(3.0));
    assert_eq!(sc(f32::NAN).max(sc(-1.0)), sc(-1.0));
}

#[test]
fn ranking_is_stable() {
    let v = scs(&[2.0, -1.0, 2.0, 0.0, -0.0]);
    assert_eq!(rank_ascending(&v), vec![1, 3, 4, 0, 2]);
    assert_eq!(rank_descending(&v), vec![0, 2, 3, 4, 1]);
    assert_eq!(
        rank_kept_descending(&v, &vec![false, true, true, true, false]),
        vec![2, 3, 1]
    );
    assert_eq!(rank_ascending(&vec![]), Vec::<usize>::new());
    // What is not a number goes beyond the infinities.
    let w = scs(&[f32::NAN, f32::INFINITY, -f32::NAN, f32::NEG_INFINITY, 1.0]);
    let (first, last) = if f32::NAN.is_sign_positive() { (2, 0) } else { (0, 2) };
    assert_eq!(rank_ascending(&w), vec![first, 3, 4, 1, last]);
    assert_eq!(rank_descending(&w), vec![last, 1, 4, 3, first]);
}

#[test]
fn dsu_find_keeps_every_set() {
    let mut d = Dsu::new(6);
    for (root, child) in [(1, 0), (2, 1), (3, 2), (4, 3)] {
        d.link(root, child);
    }
    for _ in 0..2 {
        for x in 0..5 {
            assert_eq!(d.find(x), 4);
        }
        assert_eq!(d.find(5), 5);
    }
}

#[test]
fn joining_roots_is_joining_their_sets() {
    let mut d = Dsu::new(6);
    let mut e = Dsu::new(6);
    for (a, b) in [(0, 1), (2, 3), (3, 1), (5, 4), (4, 0)] {
        let (ra, rb) = (e.find(a), e.find(b));
        assert_eq!(d.union(a, b), e.union_roots(ra, rb));
        for x in 0..6 {
            assert_eq!(d.find(x), e.find(x));
        }
    }
}

#[test]
fn numbering_goes_by_first_appearance() {
    let n = number(&vec![7, 3, 7, 9, 3]);
    assert_eq!(n.ids, vec![0, 1, 0, 2, 1]);
    assert_eq!(n.firsts, vec![0, 1, 3]);
}

#[test]
fn queue_pops_cheapest_first() {
    let mut q = MergeQueue::new();
    assert!(q.pop().is_none());
    for (i, &c) in [5.0f32, -2.0, 3.5, 0.0, -7.25, 3.5].iter().enumerate() {
        q.push(entry(c, i as u32, 100));
    }
    assert_eq!(q.len(), 6);
    let mut seen = Vec::new();
    while let Some(e) = q.pop() {
        seen.push(f32::from_bits(e.cost.bits));
    }
    assert_eq!(seen, vec![-7.25, -2.0, 0.0, 3.5, 3.5, 5.0]);
    assert_eq!(q.len(), 0);
}

#[test]
fn first_strict_improvement_wins() {
    let s = scs(&[3.0, 1.0, f32::NAN, 1.0, 2.0]);
    assert_eq!(improve(sc(3.0), &s), Some(1));
    assert_eq!(improve(sc(1.0), &s), None);
    assert_eq!(improve(sc(f32::NAN), &s), None);
    assert_eq!(first_least(&s), 1);
    // What is not a number stays if it comes first.
    assert_eq!(first_least(&scs(&[f32::NAN, 0.0])), 0);
}

#[test]
fn worst_is_the_first_greatest_admitted() {
    let s = scs(&[1.0, 4.0, 9.0, 4.0]);
    assert_eq!(
        pick_worst(sc(1.0), &vec![true, true, false, true], &s),
        Some(1)
    );
    assert_eq!(pick_worst(sc(1.0), &vec![true, false, false, false], &s), None);
}

#[test]
fn idle_climb_makes_four_rounds() {
    let mut c = Climb::new(20, sc(1.0));
    let mut turns = Vec::new();
    while let Some(t) = c.next() {
        turns.push((t.axis, t.back));
        assert!(!c.answer(sc(1.0), sc(1.5)));
    }
    assert_eq!(turns.len(), 24);
    assert_eq!(turns[..6], [(0, true), (0, false), (1, true), (1, false), (2, true), (2, false)]);
    assert_eq!(turns[6..12], turns[..6]);
    assert_eq!((c.rounds, c.halvings, c.best), (4, 4, sc(1.0)));
    assert_eq!(Climb::new(0, sc(1.0)).next(), None);
}

#[test]
fn a_climb_takes_what_improves_by_the_margin() {
    let mut c = Climb::new(3, sc(10.0));
    let mut best = 10.0;
    let mut n = 0;
    while c.next().is_some() {
        // The fourth turn of each round is better by two.
        let score = if n % 6 == 3 { best - 2.0 } else { best - 0.5 };
        if c.answer(sc(score), sc(score + 1.0)) {
            assert_eq!(n % 6, 3);
            best = score;
        }
        n += 1;
    }
    assert_eq!(n, 18);
    assert_eq!((c.rounds, c.halvings, c.best), (3, 0, sc(4.0)));
    // What is not a number is never taken.
    let mut c = Climb::new(1, sc(10.0));
    assert!(!c.answer(sc(f32::NAN), sc(f32::NAN)));
}
