use cpd::budget::{Budget, BudgetStep};
use cpd::faces::FaceRings;
use cpd::merge::{initial_pairs, Measure, Measured, MergeSettings, MergeState, Offer, Step};
use cpd::mesh::{build_adjacency, Adjacency};
use cpd::prim::{Prim, Vec3};
use cpd::primitive::{live_indices, merge_fit_proxy_points, Fit, Primitive};
use cpd::proximity::Reach;
use cpd::scalar::Scalar;

fn sc(x: f32) -> Scalar {
    Scalar { bits: x.to_bits() }
}

fn ball(r: f32) -> Prim {
    Prim::Sphere {
        center: [sc(0.0); 3],
        r: sc(r),
    }
}

fn fit(v: f32) -> Fit {
    Fit {
        q: [sc(0.0); 9],
        prim: ball(v),
        volume: sc(v),
        weighted_volume: sc(v),
    }
}

fn settings(target: usize) -> MergeSettings {
    MergeSettings {
        target,
        volume_threshold: Scalar::infinity(),
        proximity: false,
        max_empty: None,
        max_distance: None,
        max_outside: None,
    }
}

/// A strip of `n` triangles, each sharing an edge with the next.
fn strip(n: u32) -> Vec<[u32; 3]> {
    (0..n).map(|i| [i, i + 1, i + 2]).collect()
}

fn start(tris: &Vec<[u32; 3]>, s: MergeSettings) -> (MergeState, Adjacency) {
    let adj = build_adjacency(tris);
    let n = tris.len();
    let fits: Vec<Fit> = (0..n).map(|_| fit(1.0)).collect();
    let st = MergeState::new(tris, &vec![true; n], &vec![vec![]; n], &adj, &fits, s);
    (st, adj)
}

fn offer(a: u32, b: u32, cost: f32) -> Offer {
    Offer {
        a,
        b,
        cost: sc(cost),
        prim: ball(2.0),
        volume: sc(2.0),
        weighted_volume: sc(2.0),
    }
}

#[test]
fn initial_pairs_are_the_neighbouring_faces() {
    let adj = build_adjacency(&strip(4));
    let mut p = initial_pairs(&adj);
    p.sort();
    assert_eq!(p, vec![(0, 1), (1, 2), (2, 3)]);
}

#[test]
fn faces_start_as_primitives() {
    let tris = vec![[4, 2, 0], [2, 4, 1]];
    let adj = build_adjacency(&tris);
    let proxy: Vec3 = [sc(1.0), sc(2.0), sc(3.0)];
    let st = MergeState::new(
        &tris,
        &vec![true, false],
        &vec![vec![], vec![proxy]],
        &adj,
        &vec![fit(1.0), fit(5.0)],
        settings(1),
    );
    let p = st.primitives();
    assert_eq!(p[0].vertex_indices, vec![0, 2, 4]);
    assert_eq!(p[0].fit_vertex_indices, vec![0, 2, 4]);
    assert_eq!(p[0].neighbors, vec![1]);
    assert_eq!(p[1].vertex_indices, vec![1, 2, 4]);
    // A face that does not support the fit has proxy points and no vertices.
    assert!(p[1].fit_vertex_indices.is_empty());
    assert_eq!(p[1].fit_proxy_points, vec![proxy]);
    assert_eq!(p[1].volume, sc(5.0));
    assert_eq!((p[0].version, p[0].face_count, p[0].alive), (0, 1, true));
    assert_eq!(st.alive_count(), 2);
}

#[test]
fn repeated_corners_are_listed_once() {
    let tris = vec![[5, 5, 7]];
    let (st, _) = start(&tris, settings(1));
    assert_eq!(st.primitives()[0].vertex_indices, vec![5, 7]);
}

#[test]
fn merging_joins_faces_vertices_and_neighbours() {
    let (mut st, _) = start(&strip(4), settings(1));
    assert!(st.offer(&offer(1, 2, -1.0)));
    assert!(st.offer(&offer(0, 1, 3.0)));
    let e = match st.next() {
        Step::Candidate(e) => e,
        _ => panic!("a candidate is due"),
    };
    assert_eq!((e.a, e.b), (1, 2));
    assert!(!st.refuse_empty(&e, sc(1.0)));
    assert!(!st.refuse_distant(sc(1e9)));
    assert!(!st.refuse_outside(sc(1e9)));
    st.commit(1, 2, fit(7.0), Measured::nothing());
    let p = st.primitives();
    assert_eq!(st.alive_count(), 3);
    assert_eq!(p[1].vertex_indices, vec![1, 2, 3, 4]);
    assert_eq!(p[1].neighbors, vec![0, 3]);
    assert_eq!(p[0].neighbors, vec![1]);
    assert_eq!(p[3].neighbors, vec![1]);
    assert_eq!((p[1].version, p[1].face_count), (1, 2));
    assert_eq!(p[1].volume, sc(7.0));
    assert!(!p[2].alive);
    assert_eq!(p[2].face_count, 0);
    assert!(p[2].vertex_indices.is_empty() && p[2].neighbors.is_empty());
    assert_eq!(st.faces(1), vec![1, 2]);
    assert_eq!(st.candidates(1), Some(vec![0, 3]));
    // The other entry was priced for an earlier state of primitive 1.
    assert!(matches!(st.next(), Step::Stale(_)));
    assert!(matches!(st.next(), Step::PairAll));
    let (prims, mut rings, counts) = st.finish();
    assert_eq!(live_indices(&prims), vec![0, 1, 3]);
    assert_eq!(rings.owner(2), 1);
    assert_eq!(counts.merges_done, 1);
    assert_eq!(counts.merges_skipped_stale, 1);
    assert_eq!(counts.merges_rejected_empty, 0);
    assert!(!counts.all_pairs_used);
}

#[test]
fn the_merge_stops_at_its_target() {
    let (mut st, _) = start(&strip(3), settings(2));
    st.offer(&offer(0, 1, 0.0));
    st.offer(&offer(1, 2, 0.0));
    assert!(matches!(st.next(), Step::Candidate(_)));
    st.commit(0, 1, fit(1.0), Measured::nothing());
    assert!(matches!(st.next(), Step::Done));
}

#[test]
fn pairs_above_the_threshold_are_not_queued() {
    let mut s = settings(1);
    s.volume_threshold = sc(1.0);
    let (mut st, _) = start(&strip(2), s);
    assert!(!st.offer(&offer(0, 1, 1.5)));
    assert!(st.offer(&offer(0, 1, 1.0)));
}

#[test]
fn refusals_for_open_space_are_remembered() {
    let mut s = settings(1);
    s.max_empty = Some(sc(0.25));
    s.max_distance = Some(sc(1.0));
    s.max_outside = Some(sc(2.0));
    let (mut st, _) = start(&strip(2), s);
    st.offer(&offer(0, 1, 0.0));
    st.offer(&offer(1, 0, 1.0));
    let e = match st.next() {
        Step::Candidate(e) => e,
        _ => panic!("a candidate is due"),
    };
    assert!(st.refuse_empty(&e, sc(0.5)));
    // The same pair the other way round.
    assert!(matches!(st.next(), Step::Remembered(_)));
    // With open space preserved, distant pairs are not tried.
    assert!(matches!(st.next(), Step::Done));
    assert!(st.refuse_distant(sc(1.5)));
    assert!(!st.refuse_distant(sc(1.0)));
    assert!(st.refuse_outside(sc(2.5)));
    let (_, _, counts) = st.finish();
    assert_eq!(counts.merges_rejected_empty, 2);
    assert_eq!(counts.merges_rejected_feasibility, 1);
    assert_eq!(counts.merges_rejected_outside, 1);
}

#[test]
fn limits_are_measured_in_order() {
    let mut s = settings(1);
    s.max_empty = Some(sc(0.25));
    s.max_distance = Some(sc(1.0));
    s.max_outside = Some(sc(2.0));
    let (mut st, _) = start(&strip(2), s);
    st.offer(&offer(0, 1, 0.0));
    let e = match st.next() {
        Step::Candidate(e) => e,
        _ => panic!("a candidate is due"),
    };
    let mut m = Measured::nothing();
    let mut asked = Vec::new();
    while let Some(what) = st.lacks(&m) {
        asked.push(what);
        // What just reaches a limit is within it.
        let x = match what {
            Measure::OpenSpace => sc(0.25),
            Measure::Distance => sc(1.0),
            Measure::Outside => sc(2.0),
        };
        assert!(!st.refuse(&e, what, x));
        m = m.with(what, x);
    }
    assert_eq!(asked, vec![Measure::OpenSpace, Measure::Distance, Measure::Outside]);
    st.commit(e.a, e.b, fit(3.0), m);
    assert_eq!(st.alive_count(), 1);
    let (_, _, counts) = st.finish();
    assert_eq!(counts.merges_done, 1);
    assert_eq!(counts.merges_rejected_empty, 0);
    assert_eq!(counts.merges_rejected_feasibility, 0);
    assert_eq!(counts.merges_rejected_outside, 0);
}

#[test]
fn only_set_limits_are_measured() {
    let (st, _) = start(&strip(2), settings(1));
    assert_eq!(st.lacks(&Measured::nothing()), None);
    let mut s = settings(1);
    s.max_outside = Some(sc(2.0));
    let (mut st, _) = start(&strip(2), s);
    assert_eq!(st.lacks(&Measured::nothing()), Some(Measure::Outside));
    st.offer(&offer(0, 1, 0.0));
    let e = match st.next() {
        Step::Candidate(e) => e,
        _ => panic!("a candidate is due"),
    };
    assert!(!st.refuse(&e, Measure::OpenSpace, sc(1.0)));
    assert!(!st.refuse(&e, Measure::Distance, sc(9.0)));
    assert!(st.refuse(&e, Measure::Outside, sc(2.5)));
    assert_eq!(st.alive_count(), 2);
    let (_, _, counts) = st.finish();
    assert_eq!(counts.merges_rejected_outside, 1);
}

/// Merges without limits, offering every pair that is asked for; says how many
/// primitives are left.
fn merged_down(tris: &Vec<[u32; 3]>, target: usize) -> usize {
    let (mut st, adj) = start(tris, settings(target));
    for (a, b) in initial_pairs(&adj) {
        st.offer(&offer(a, b, (a + b) as f32));
    }
    loop {
        match st.next() {
            Step::Done => return st.alive_count(),
            Step::PairAll => {
                for (a, b) in st.distant_pairs() {
                    st.offer(&offer(a, b, 100.0));
                }
                st.pairs_offered();
            }
            Step::Candidate(e) => {
                st.commit(e.a, e.b, fit(1.0), Measured::nothing());
                for n in st.candidates(e.a).unwrap() {
                    st.offer(&offer(e.a, n, 50.0));
                }
            }
            _ => {}
        }
    }
}

#[test]
fn a_count_that_is_asked_for_is_reached() {
    let mut tris = strip(5);
    tris.push([20, 21, 22]);
    tris.push([30, 31, 32]);
    for target in 1..7 {
        assert_eq!(merged_down(&tris, target), target);
    }
    assert_eq!(merged_down(&tris, 7), 7);
    assert_eq!(merged_down(&tris, 100), 7);
}

#[test]
fn an_empty_queue_falls_back_once() {
    // Two strips that do not touch.
    let mut tris = strip(2);
    tris.push([10, 11, 12]);
    let (mut st, _) = start(&tris, settings(1));
    assert!(matches!(st.next(), Step::PairAll));
    let mut pairs = st.distant_pairs();
    pairs.sort();
    assert_eq!(pairs, vec![(0, 2), (1, 2)]);
    st.offer(&offer(0, 2, 0.0));
    st.pairs_offered();
    assert!(matches!(st.next(), Step::Candidate(_)));
    st.commit(0, 2, fit(1.0), Measured::nothing());
    assert_eq!(st.candidates(0), Some(vec![1]));
    assert!(matches!(st.next(), Step::Done));
}

#[test]
fn nearby_pairs_are_distant_ones_within_reach() {
    let mut tris = strip(2);
    tris.push([10, 11, 12]);
    tris.push([20, 21, 22]);
    let mut s = settings(1);
    s.proximity = true;
    s.max_empty = Some(sc(0.5));
    let (mut st, _) = start(&tris, s);
    assert!(matches!(st.next(), Step::PairNearby));
    let live = st.live();
    assert_eq!(live, vec![0, 1, 2, 3]);
    let at = [0.0f32, 1.0, 2.5, 100.0];
    let reach = Reach {
        max_dist: sc(5.0),
        cos_min: sc(0.5),
    };
    let mut pairs = st.nearby_pairs(&live, |i, j| sc((at[i] - at[j]).abs()), |_, _| sc(1.0), 2, reach);
    pairs.sort();
    // 0 and 1 are neighbours already, 3 is too far away.
    assert_eq!(pairs, vec![(0, 2), (1, 2)]);
    st.pairs_offered();
    assert_eq!(st.candidates(0), None);
    let partners = st.nearby_partners(&live, 1, |j| sc((at[1] - at[j]).abs()), |_| sc(1.0), 3, reach);
    assert_eq!(partners, vec![0, 2]);
    let partners = st.nearby_partners(&live, 1, |j| sc((at[1] - at[j]).abs()), |_| sc(1.0), 1, reach);
    assert_eq!(partners, vec![0]);
    let partners = st.nearby_partners(&live, 1, |j| sc((at[1] - at[j]).abs()), |_| sc(0.1), 3, reach);
    assert!(partners.is_empty());
}

#[test]
fn proxy_points_are_joined_in_order() {
    let a: Vec3 = [sc(1.0); 3];
    let b: Vec3 = [sc(2.0); 3];
    assert_eq!(merge_fit_proxy_points(&vec![a], &vec![b, a]), vec![a, b, a]);
    assert!(merge_fit_proxy_points(&vec![], &vec![]).is_empty());
}

fn lone(volume: f32, faces: u32) -> Primitive {
    Primitive {
        alive: true,
        version: 0,
        q: [sc(0.0); 9],
        prim: ball(volume),
        volume: sc(volume),
        weighted_volume: sc(volume),
        face_count: faces,
        vertex_indices: vec![],
        fit_vertex_indices: vec![],
        fit_proxy_points: vec![],
        neighbors: vec![],
    }
}

#[test]
fn compression_merges_down_to_the_budget() {
    let rings = FaceRings::from_groups(&vec![vec![0, 1], vec![2]], 3);
    let mut dead = lone(0.0, 0);
    dead.alive = false;
    let prims = vec![lone(1.0, 2), dead, lone(1.0, 1), lone(1.0, 0)];
    let mut b = match Budget::new(prims, &rings, 2, sc(0.5)) {
        Ok(b) => b,
        Err(_) => panic!("there is something to do"),
    };
    assert_eq!(b.live(), vec![0, 2, 3]);
    assert_eq!(*b.faces(0), vec![0, 1]);
    assert!(b.faces(3).is_empty());
    b.offer(&offer(2, 0, 1.0));
    b.offer(&offer(0, 3, 5.0));
    let e = match b.next() {
        BudgetStep::Candidate(e) => e,
        _ => panic!("a candidate is due"),
    };
    assert_eq!((e.a, e.b), (2, 0));
    assert!(b.allows(sc(1.0), sc(0.5)));
    assert!(!b.allows(sc(1.1), sc(0.5)));
    assert!(!b.allows(sc(1.0), sc(0.6)));
    b.commit(2, 0, fit(4.0), sc(1.0), sc(0.5));
    assert_eq!(*b.faces(2), vec![2, 0, 1]);
    assert!(b.faces(0).is_empty());
    assert_eq!(b.partners(2), vec![3]);
    assert!(matches!(b.next(), BudgetStep::Done));
    assert_eq!(b.primitives()[2].face_count, 3);
    let (prims, merges) = b.finish();
    assert_eq!(merges, 1);
    assert_eq!(live_indices(&prims), vec![2, 3]);
}

#[test]
fn compression_drops_stale_pairs_and_may_run_dry() {
    let rings = FaceRings::new(0);
    let mut b = Budget::new(vec![lone(1.0, 0), lone(1.0, 0), lone(1.0, 0)], &rings, 1, sc(0.5))
        .unwrap_or_else(|_| panic!("there is something to do"));
    b.offer(&offer(0, 1, 0.0));
    b.offer(&offer(1, 2, 1.0));
    assert!(matches!(b.next(), BudgetStep::Candidate(_)));
    b.commit(0, 1, fit(1.0), sc(0.0), sc(0.0));
    assert!(matches!(b.next(), BudgetStep::Stale(_)));
    assert!(matches!(b.next(), BudgetStep::Done));
}

#[test]
fn a_met_budget_leaves_the_primitives_alone() {
    let rings = FaceRings::new(0);
    assert!(Budget::new(vec![lone(1.0, 0)], &rings, 1, sc(0.5)).is_err());
    assert!(Budget::new(vec![lone(1.0, 0), lone(1.0, 0)], &rings, 0, sc(0.5)).is_err());
}
