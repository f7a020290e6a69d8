use cpd::bvh::{longest_axis, Bvh};
use cpd::climb::{Shrinking, Trial};
use cpd::mesh::{build_adjacency, component_boxes, summarize_components, Mesh};
use cpd::metrics::sample_seed;
use cpd::planes::{canonical_normal, NEGLIGIBLE};
use cpd::prim::{collision_shape_weight, Prim, PrimKind, Vec3};
use cpd::probe::{farthest, sample_places, signed_distance_score, DistanceMode};
use cpd::proximity::closest_pair;
use cpd::ray::slabs_overlap;
use cpd::repair::{in_four, one_face_cuts};
use cpd::report::SplitPhase;
use cpd::scalar::Scalar;
use cpd::split::SplitPassMode;
use cpd::split_pass::{looks_outside, mode_of, seeks_error_region};

fn sc(x: f32) -> Scalar {
    Scalar { bits: x.to_bits() }
}

fn scs(xs: &[f32]) -> Vec<Scalar> {
    xs.iter().map(|&x| sc(x)).collect()
}

fn v3(x: f32, y: f32, z: f32) -> Vec3 {
    [sc(x), sc(y), sc(z)]
}

fn one_of_each() -> Vec<Prim> {
    let (o, x, y, z) = (v3(0.5, -1.0, 2.0), v3(1.0, 0.0, 0.0), v3(0.0, 1.0, 0.0), v3(0.0, 0.0, 1.0));
    let axes = [x, y, z];
    let one = sc(1.0);
    vec![
        Prim::Obb { center: o, axes, half_extents: [one, one, one] },
        Prim::Sphere { center: o, r: one },
        Prim::Cylinder { center: o, axis: z, h: one, r: one },
        Prim::Capsule { center: o, axis: z, h: one, r: one },
        Prim::Frustum { center: o, axis: z, h: one, r_bot: one, r_top: one },
        Prim::Prism { center: o, axes, hx: one, hy: one, hzt: one, hzb: one },
    ]
}

#[test]
fn signs_are_dropped_and_turned() {
    for x in [0.0f32, -0.0, 1.5, -1.5, 1e-45, -1e-45, f32::MAX, f32::INFINITY, f32::NEG_INFINITY] {
        assert_eq!(sc(x).abs(), sc(x.abs()));
        assert_eq!(sc(x).neg(), sc(-x));
        assert_eq!(sc(x).neg().neg(), sc(x));
    }
    assert!(sc(f32::NAN).abs().is_nan());
    assert!(sc(f32::NAN).neg().is_nan());
}

#[test]
fn every_kind_has_its_weights() {
    let weights: Vec<Scalar> = one_of_each().iter().map(|p| p.weight()).collect();
    assert_eq!(weights, scs(&[1.0, 1.0, 1.05, 1.0, 2.1, 1.4]));
    let clean: Vec<Scalar> = one_of_each().iter().map(|p| collision_shape_weight(p.kind())).collect();
    assert_eq!(clean, scs(&[1.0, 0.95, 0.72, 0.82, 0.88, 1.18]));
    assert_eq!(collision_shape_weight(PrimKind::Cylinder), sc(0.72));
}

#[test]
fn every_kind_has_a_center() {
    for p in one_of_each() {
        assert_eq!(p.center(), v3(0.5, -1.0, 2.0));
    }
}

#[test]
fn boxes_are_cut_along_the_first_longest_side() {
    assert_eq!(longest_axis(v3(3.0, 2.0, 1.0)), 0);
    assert_eq!(longest_axis(v3(1.0, 3.0, 2.0)), 1);
    assert_eq!(longest_axis(v3(1.0, 2.0, 3.0)), 2);
    assert_eq!(longest_axis(v3(2.0, 2.0, 2.0)), 0);
    assert_eq!(longest_axis(v3(1.0, 2.0, 2.0)), 1);
    assert_eq!(longest_axis(v3(0.0, 0.0, 0.0)), 0);
}

#[test]
fn opposite_faces_have_one_normal() {
    assert_eq!(Scalar { bits: NEGLIGIBLE }, sc(1e-4));
    assert_eq!(canonical_normal(v3(-0.6, 0.8, 0.0)), v3(0.6, -0.8, -0.0));
    assert_eq!(canonical_normal(v3(0.6, -0.8, 0.0)), v3(0.6, -0.8, 0.0));
    // What is nearly zero does not decide.
    assert_eq!(canonical_normal(v3(-0.0001, 1.0, 0.0)), v3(-0.0001, 1.0, 0.0));
    assert_eq!(canonical_normal(v3(0.0, -1.0, 0.5)), v3(-0.0, 1.0, -0.5));
    assert_eq!(canonical_normal(v3(0.0, 0.00005, -1.0)), v3(-0.0, -0.00005, 1.0));
    assert_eq!(canonical_normal(v3(0.0, 0.0, 0.0)), v3(0.0, 0.0, 0.0));
    for n in [v3(0.3, 0.4, 0.5), v3(0.0, 0.3, -0.4), v3(0.0, 0.0, -1.0)] {
        let back = [n[0].neg(), n[1].neg(), n[2].neg()];
        assert_eq!(canonical_normal(n), canonical_normal(back));
    }
}

#[test]
fn distances_count_on_one_side_or_both() {
    assert_eq!(signed_distance_score(sc(-2.0), DistanceMode::Absolute), sc(2.0));
    assert_eq!(signed_distance_score(sc(2.0), DistanceMode::Absolute), sc(2.0));
    assert_eq!(signed_distance_score(sc(-2.0), DistanceMode::Outside), sc(0.0));
    assert_eq!(signed_distance_score(sc(2.0), DistanceMode::Outside), sc(2.0));
    assert_eq!(signed_distance_score(sc(f32::NAN), DistanceMode::Outside), sc(0.0));
}

#[test]
fn the_farthest_sample_is_the_first_finite_greatest() {
    assert_eq!(farthest(&scs(&[1.0, 3.0, 2.0, 3.0])), Some(1));
    assert_eq!(farthest(&scs(&[f32::INFINITY, 0.5, f32::NAN])), Some(1));
    assert_eq!(farthest(&scs(&[0.0])), Some(0));
    assert_eq!(farthest(&scs(&[f32::NAN, f32::INFINITY])), None);
    assert_eq!(farthest(&vec![]), None);
}

#[test]
fn samples_lie_evenly_apart() {
    assert_eq!(sample_places(10, 3), vec![0, 3, 6]);
    assert_eq!(sample_places(10, 4), vec![0, 2, 4, 6]);
    assert_eq!(sample_places(3, 8), vec![0, 1, 2]);
    assert_eq!(sample_places(5, 3), vec![0, 1, 2]);
    assert_eq!(sample_places(0, 3), Vec::<usize>::new());
}

#[test]
fn components_have_boxes_of_the_faces_kept() {
    let mesh = Mesh {
        verts: vec![
            v3(0.0, 0.0, 0.0),
            v3(1.0, 0.0, 0.0),
            v3(0.0, 2.0, 0.0),
            v3(1.0, 2.0, -3.0),
            v3(5.0, 5.0, 5.0),
            v3(6.0, 5.0, 5.0),
            v3(5.0, 7.0, 4.0),
        ],
        tris: vec![[0, 1, 2], [2, 1, 3], [4, 5, 6]],
    };
    let summary = summarize_components(&build_adjacency(&mesh.tris));
    let all = component_boxes(&summary, &mesh, &vec![true, true, true]);
    assert_eq!(
        all,
        vec![
            (v3(0.0, 0.0, -3.0), v3(1.0, 2.0, 0.0)),
            (v3(5.0, 5.0, 4.0), v3(6.0, 7.0, 5.0)),
        ]
    );
    let some = component_boxes(&summary, &mesh, &vec![true, false, false]);
    assert_eq!(some[0], (v3(0.0, 0.0, 0.0), v3(1.0, 2.0, 0.0)));
    // Without a face the box is turned inside out.
    let inf = f32::INFINITY;
    assert_eq!(some[1], (v3(inf, inf, inf), v3(-inf, -inf, -inf)));
}

#[test]
fn no_pair_is_closer_than_the_closest() {
    let at = |x: u32| -> f32 { [0.0, 4.0, 9.0, 20.0, 11.0, 10.5][x as usize] };
    let dist = |x: u32, y: u32| -> Scalar { sc((at(x) - at(y)).abs()) };
    let (a, b) = (vec![0, 1, 2], vec![3, 4, 5]);
    let (p, q) = closest_pair(&a, &b, dist);
    assert_eq!((p, q), (2, 5));
    for &x in &a {
        for &y in &b {
            assert!(dist(p, q).le(dist(x, y)));
        }
    }
}

#[test]
fn a_ray_meets_a_box_where_its_slabs_overlap() {
    // Crossings of the lower and the upper planes.
    assert!(slabs_overlap(v3(1.0, 0.0, 2.0), v3(3.0, 5.0, 4.0), sc(10.0)));
    assert!(!slabs_overlap(v3(1.0, 0.0, 4.0), v3(3.0, 5.0, 6.0), sc(10.0)));
    // Whichever plane comes first.
    assert!(slabs_overlap(v3(3.0, 0.0, 4.0), v3(1.0, 5.0, 2.0), sc(10.0)));
    // Neither behind the start nor beyond the end.
    assert!(!slabs_overlap(v3(-3.0, -3.0, -3.0), v3(-1.0, 1.0, 1.0), sc(10.0)));
    assert!(!slabs_overlap(v3(5.0, 5.0, 5.0), v3(6.0, 6.0, 6.0), sc(4.0)));
    assert!(slabs_overlap(v3(5.0, 5.0, 5.0), v3(6.0, 6.0, 6.0), sc(5.0)));
    // A crossing that is not a number, where a ray runs in a side of the box,
    // bounds nothing.
    let nan = f32::NAN;
    assert!(slabs_overlap(v3(nan, 1.0, 1.0), v3(f32::INFINITY, 2.0, 2.0), sc(10.0)));
    assert!(slabs_overlap(v3(1.0, f32::NEG_INFINITY, 1.0), v3(2.0, nan, 2.0), sc(10.0)));
    assert!(!slabs_overlap(v3(nan, 1.0, 3.0), v3(nan, 2.0, 4.0), sc(10.0)));
    // Parallel to two slabs and between their planes.
    let inf = f32::INFINITY;
    assert!(slabs_overlap(v3(-inf, -inf, 1.0), v3(inf, inf, 2.0), sc(10.0)));
    assert!(!slabs_overlap(v3(inf, -inf, 1.0), v3(inf, inf, 2.0), sc(10.0)));
}

#[test]
fn pieces_fill_the_face() {
    let at = [(0.0, 0.0), (6.0, 0.0), (0.0, 6.0), (3.0, 0.0), (3.0, 3.0), (0.0, 3.0), (2.0, 2.0)];
    let area = |t: [usize; 3]| -> f32 {
        let [a, b, c] = t.map(|i| at[i]);
        (b.0 - a.0) * (c.1 - a.1) - (c.0 - a.0) * (b.1 - a.1)
    };
    let cuts = one_face_cuts();
    assert_eq!(cuts.iter().map(|c| c.len()).collect::<Vec<usize>>(), vec![2, 2, 2, 3, 4]);
    for cut in &cuts {
        assert!(cut.iter().all(|&t| area(t) > 0.0));
        assert_eq!(cut.iter().map(|&t| area(t)).sum::<f32>(), area([0, 1, 2]));
    }
    assert_eq!(cuts[4], in_four());
    assert_eq!(cuts[0], vec![[2, 0, 3], [2, 3, 1]]);
}

#[test]
fn samples_are_seeded_by_the_first_vertex() {
    assert_eq!(sample_seed(v3(0.0, 0.0, 0.0)).0, 0xCAFEF00D);
    let bits = |x: f32| x.to_bits() as u64;
    for (x, y, z) in [(1.0f32, 2.5f32, -3.0f32), (-0.0, f32::MAX, 1e-40)] {
        let want = 0xCAFEF00D
            ^ bits(x).wrapping_mul(2654435761)
            ^ bits(y).wrapping_mul(40503)
            ^ bits(z).wrapping_mul(67043);
        assert_eq!(sample_seed(v3(x, y, z)).0, want);
    }
}

#[test]
fn phases_split_in_their_own_way() {
    assert_eq!(mode_of(SplitPhase::PreRefine), SplitPassMode::General);
    assert_eq!(mode_of(SplitPhase::PostRefine), SplitPassMode::General);
    assert_eq!(mode_of(SplitPhase::BadSlabRepair), SplitPassMode::SlabCornerRepair);
    assert!(!seeks_error_region(SplitPhase::PreRefine, false));
    assert!(seeks_error_region(SplitPhase::PreRefine, true));
    assert!(seeks_error_region(SplitPhase::BadSlabRepair, false));
    assert!(looks_outside(SplitPassMode::SlabCornerRepair, sc(2.0), sc(2.0)));
    assert!(!looks_outside(SplitPassMode::SlabCornerRepair, sc(2.0), sc(1.0)));
    assert!(!looks_outside(SplitPassMode::General, sc(1.0), sc(2.0)));
}

#[test]
fn a_ray_in_the_side_of_a_box_finds_its_face() {
    // One face, a ray straight up that starts below an edge of it.
    let lo = v3(0.0, 0.0, 1.0);
    let hi = v3(1.0, 1.0, 1.0);
    let mid = v3(1.0 / 3.0, 1.0 / 3.0, 1.0);
    let tree = Bvh::build(vec![lo], vec![hi], vec![mid], |_, _| (0, sc(0.5)));
    let origin = [0.0f32, 0.25, 0.0];
    let inv = [f32::INFINITY, f32::INFINITY, 1.0];
    let crossing = |corner: Vec3| -> Vec3 {
        [0, 1, 2].map(|k| sc((f32::from_bits(corner[k].bits) - origin[k]) * inv[k]))
    };
    let meets_box = |lo: Vec3, hi: Vec3| slabs_overlap(crossing(lo), crossing(hi), sc(10.0));
    assert!(tree.any_hit(meets_box, |f| f == 0));
}

#[test]
fn a_tree_over_no_faces_is_never_hit() {
    let tree = Bvh::build(vec![], vec![], vec![], |_, _| (0, sc(0.0)));
    assert!(!tree.any_hit(|_, _| true, |_| true));
    let (face, d) = tree.nearest_face(|_, _| sc(0.0), |_| sc(0.0));
    assert_eq!((face, d), (0, Scalar::infinity()));
}

#[test]
fn shrinking_keeps_the_best_of_each_round() {
    assert!(Shrinking::new(sc(1.0), sc(1.0)).is_none());
    let mut s = Shrinking::new(sc(8.0), sc(1.0)).unwrap();
    let mut trials = Vec::new();
    // Trials 2 and 5 gain by the margin, and 5 more than 2.
    for k in 0..9 {
        trials.push(s.next().unwrap());
        let score = match k {
            2 => 7.0,
            5 => 6.0,
            _ => 7.9,
        };
        let v = s.answer(sc(score), sc(score + 0.5));
        assert_eq!((v.taken, v.kept), (k == 2 || k == 5, k == 8));
    }
    assert_eq!(trials[0], Trial { axis: 0, factor: 0 });
    assert_eq!(trials[5], Trial { axis: 1, factor: 2 });
    assert_eq!(trials[8], Trial { axis: 2, factor: 2 });
    assert_eq!((s.rounds, s.best), (1, sc(6.0)));
    // A round that gains nothing is the last.
    for _ in 0..9 {
        assert!(s.next().is_some());
        let v = s.answer(sc(5.9), sc(6.4));
        assert!(!v.taken && !v.kept);
    }
    assert!(s.next().is_none());
    assert_eq!((s.rounds, s.best), (1, sc(6.0)));
}

#[test]
fn shrinking_makes_five_rounds_at_most() {
    let mut s = Shrinking::new(sc(100.0), sc(1.0)).unwrap();
    let mut made = 0;
    while s.next().is_some() {
        made += 1;
        let score = 100.0 - made as f32;
        s.answer(sc(score), sc(score + 0.5));
    }
    assert_eq!((made, s.rounds), (45, 5));
    assert_eq!(s.best, sc(55.0));
}
