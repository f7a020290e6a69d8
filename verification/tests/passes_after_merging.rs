use cpd::cull::{strip_thin_obbs, Cull, CullRule};
use cpd::faces::FaceRings;
use cpd::mesh::build_adjacency;
use cpd::passes::{DistanceUses, Pass, PassOptions, Passes};
use cpd::prim::{Prim, PrimKind};
use cpd::primitive::{live_indices, Fit, Primitive};
use cpd::rebalance::{Rebalance, RebalanceStep};
use cpd::regroup::{rebuild, vertices_of, Groups, Shape};
use cpd::repair::{
    choose_option, debug_status, is_detail_like, is_medium_slab, is_repairable_slab,
    repair_candidates, replace_with_pieces, sort3, worst_first, DebugStatus, Piece, RepairRun,
    ScoredOption, SlabLimits,
};
use cpd::report::SplitPhase;
use cpd::scalar::Scalar;
use cpd::split::{
    assign_nearer, can_split, choose_split, cut_list, is_tiny, push_split_candidate, rank_faces,
    split_at_threshold, split_by_flags, would_improve, ScoredSplit, SplitCandidate, SplitPassMode,
};
use cpd::split_pass::{Pick, SplitDebugOpts, SplitPass};

fn sc(x: f32) -> Scalar {
    Scalar { bits: x.to_bits() }
}

fn scs(xs: &[f32]) -> Vec<Scalar> {
    xs.iter().map(|&x| sc(x)).collect()
}

fn block(h: [f32; 3]) -> Prim {
    Prim::Obb {
        center: [sc(0.0); 3],
        axes: [[sc(0.0); 3]; 3],
        half_extents: [sc(h[0]), sc(h[1]), sc(h[2])],
    }
}

fn fit(v: f32) -> Fit {
    Fit {
        q: [sc(0.0); 9],
        prim: block([v, v, v]),
        volume: sc(v),
        weighted_volume: sc(v),
    }
}

fn primitive(volume: f32, vertices: Vec<u32>) -> Primitive {
    Primitive {
        alive: true,
        version: 3,
        q: [sc(0.0); 9],
        prim: block([1.0, 1.0, 1.0]),
        volume: sc(volume),
        weighted_volume: sc(volume),
        face_count: 1,
        vertex_indices: vertices.clone(),
        fit_vertex_indices: vertices,
        fit_proxy_points: vec![],
        neighbors: vec![],
    }
}

fn strip(n: u32) -> Vec<[u32; 3]> {
    (0..n).map(|i| [i, i + 1, i + 2]).collect()
}

#[test]
fn groups_are_numbered_by_lowest_face() {
    let mut rings = FaceRings::from_groups(&vec![vec![4, 0], vec![1, 3], vec![2]], 5);
    let (g, roots) = Groups::from_rings(&mut rings);
    assert_eq!(g.len(), 3);
    assert_eq!(*g.group(0), vec![0, 4]);
    assert_eq!(*g.group(1), vec![1, 3]);
    assert_eq!(*g.group(2), vec![2]);
    assert_eq!(roots, vec![4, 1, 2]);
    assert_eq!(g.group_of(3), 1);
    assert_eq!(g.face_count(), 5);
}

#[test]
fn vertices_of_faces() {
    let tris = vec![[3, 1, 2], [2, 1, 9]];
    let support = vec![true, false];
    assert_eq!(vertices_of(&vec![0, 1], &tris, &support, true), vec![1, 2, 3, 9]);
    assert_eq!(vertices_of(&vec![0, 1], &tris, &support, false), vec![1, 2, 3]);
    assert!(vertices_of(&vec![], &tris, &support, true).is_empty());
}

#[test]
fn faces_migrate_until_nothing_moves() {
    let tris = strip(4);
    let adj = build_adjacency(&tris);
    let mut rings = FaceRings::from_groups(&vec![vec![0, 1, 2], vec![3]], 4);
    let mut r = Rebalance::new(&mut rings, 5).unwrap();
    for f in 0..2 {
        assert!(matches!(r.step(&adj), RebalanceStep::Stays(x) if x == f));
    }
    match r.step(&adj) {
        RebalanceStep::Try(f, to) => {
            assert_eq!((f, to), (2, vec![1]));
            assert_eq!(r.trial(2, 1), (vec![0, 1], vec![3, 2]));
            r.move_face(2, 1);
        }
        _ => panic!("face 2 is next to another primitive"),
    }
    match r.step(&adj) {
        RebalanceStep::Stays(x) => assert_eq!(x, 3),
        RebalanceStep::Try(x, _) => assert_eq!(x, 3),
        _ => panic!("face 3 comes last"),
    }
    assert!(matches!(r.step(&adj), RebalanceStep::EndPass(1)));
    assert_eq!(r.total(), 1);
    // A second round in which nothing moves ends the pass.
    for _ in 0..4 {
        r.step(&adj);
    }
    assert!(matches!(r.step(&adj), RebalanceStep::EndPass(0)));
    assert!(matches!(r.step(&adj), RebalanceStep::Done));
    assert_eq!(*r.groups().group(0), vec![0, 1]);
    assert_eq!(*r.groups().group(1), vec![3, 2]);
}

#[test]
fn groups_are_numbered_by_their_first_faces() {
    let mut rings = FaceRings::from_groups(&vec![vec![5, 4], vec![3, 1], vec![2, 0]], 6);
    let r = Rebalance::new(&mut rings, 1).unwrap();
    assert_eq!(*r.groups().group(0), vec![0, 2]);
    assert_eq!(*r.groups().group(1), vec![1, 3]);
    assert_eq!(*r.groups().group(2), vec![4, 5]);
}

#[test]
fn a_lone_face_does_not_leave_its_primitive() {
    let adj = build_adjacency(&strip(2));
    let mut rings = FaceRings::new(2);
    let mut r = Rebalance::new(&mut rings, 1).unwrap();
    assert!(matches!(r.step(&adj), RebalanceStep::Stays(0)));
    assert!(matches!(r.step(&adj), RebalanceStep::Stays(1)));
    let mut one = FaceRings::from_groups(&vec![vec![0, 1]], 2);
    assert!(Rebalance::new(&mut one, 1).is_none());
}

#[test]
fn groups_are_turned_back_into_primitives() {
    let tris = strip(4);
    let adj = build_adjacency(&tris);
    let mut prims: Vec<Primitive> = (0..5).map(|i| primitive(i as f32, vec![])).collect();
    let mut rings = FaceRings::from_groups(&vec![vec![2, 3], vec![0, 1]], 4);
    let (groups, _) = Groups::from_rings(&mut rings);
    let shapes = vec![
        Shape { fit: fit(10.0), proxies: vec![[sc(1.0); 3]] },
        Shape { fit: fit(20.0), proxies: vec![] },
    ];
    let support = vec![true, true, true, false];
    let mut rings = rebuild(&mut prims, &groups, &shapes, &vec![true, true], &tris, &support, &adj);
    assert_eq!(rings.owner(1), 0);
    assert_eq!(rings.owner(3), 2);
    assert_eq!(rings.faces(2, 2), vec![2, 3]);
    assert!(prims[0].alive && !prims[1].alive && prims[2].alive && !prims[3].alive);
    assert_eq!(prims[0].version, 4);
    assert_eq!(prims[0].volume, sc(10.0));
    assert_eq!(prims[0].vertex_indices, vec![0, 1, 2, 3]);
    assert_eq!(prims[0].fit_proxy_points.len(), 1);
    assert_eq!(prims[2].vertex_indices, vec![2, 3, 4, 5]);
    assert_eq!(prims[2].fit_vertex_indices, vec![2, 3, 4]);
    assert_eq!(prims[0].neighbors, vec![2]);
    assert_eq!(prims[2].neighbors, vec![0]);
    assert_eq!(prims[3].face_count, 0);
    // What is not a face of the mesh is left alone.
    assert_eq!((prims[4].version, prims[4].alive), (3, true));
}

#[test]
fn ranked_lists_are_cut_with_a_margin() {
    let ranked = rank_faces(&vec![7, 8, 9, 10], &scs(&[3.0, 1.0, 3.0, 2.0]));
    assert_eq!(ranked, vec![8, 10, 7, 9]);
    assert_eq!(cut_list(&ranked, 2, 1), (vec![8, 10], vec![7, 9]));
    assert_eq!(cut_list(&ranked, 0, 1), (vec![8], vec![10, 7, 9]));
    assert_eq!(cut_list(&ranked, 9, 1), (vec![8, 10, 7], vec![9]));
    assert_eq!(cut_list(&ranked, 9, 2), (vec![8, 10], vec![7, 9]));
}

#[test]
fn faces_are_parted_by_flags_and_thresholds() {
    let faces = vec![4, 5, 6];
    assert_eq!(split_by_flags(&faces, &vec![true, false, true]), (vec![4, 6], vec![5]));
    assert_eq!(
        split_at_threshold(&faces, &scs(&[1.0, 2.0, 3.0]), sc(2.0)),
        (vec![4, 5], vec![6])
    );
    assert_eq!(
        assign_nearer(&scs(&[1.0, 5.0, 2.0]), &scs(&[2.0, 1.0, 2.0])),
        Some(vec![true, false, true])
    );
    assert_eq!(assign_nearer(&scs(&[1.0]), &scs(&[2.0])), None);
    assert_eq!(assign_nearer(&scs(&[3.0]), &scs(&[2.0])), None);
    // What is not a number goes beyond the infinities.
    assert_eq!(rank_faces(&faces, &scs(&[f32::NAN, f32::INFINITY, -1.0])), vec![6, 5, 4]);
}

#[test]
fn a_split_is_listed_once() {
    let mut out: Vec<SplitCandidate> = Vec::new();
    push_split_candidate(&mut out, "one".to_string(), &vec![3, 1], &vec![2]);
    push_split_candidate(&mut out, "two".to_string(), &vec![2], &vec![1, 3]);
    push_split_candidate(&mut out, "none".to_string(), &vec![], &vec![1, 2, 3]);
    push_split_candidate(&mut out, "three".to_string(), &vec![3], &vec![2, 1]);
    assert_eq!(out.len(), 2);
    assert_eq!((out[0].source.as_str(), &out[0].faces_a, &out[0].faces_b), ("one", &vec![1, 3], &vec![2]));
    assert_eq!((out[1].source.as_str(), &out[1].faces_a, &out[1].faces_b), ("three", &vec![3], &vec![1, 2]));
}

fn scored(score: f32, oversized: bool, tiny: bool) -> ScoredSplit {
    ScoredSplit {
        score: sc(score),
        with_margin: sc(score + 1e-6),
        scaled: sc(score * 0.98),
        oversized,
        tiny,
    }
}

#[test]
fn splits_need_points_and_faces() {
    assert!(!can_split(3) && can_split(4));
    let c = |a: Vec<u32>, b: Vec<u32>| SplitCandidate {
        source: String::new(),
        faces_a: a,
        faces_b: b,
    };
    assert!(is_tiny(&c(vec![1], vec![2, 3])));
    assert!(is_tiny(&c(vec![1, 2], vec![3])));
    assert!(!is_tiny(&c(vec![1, 2], vec![3, 4])));
    assert!(would_improve(sc(1.0), sc(2.0), sc(2.5)));
    assert!(!would_improve(sc(1.0), sc(2.5), sc(2.5)));
    assert!(!would_improve(sc(3.0), sc(1.0), sc(2.5)));
}

#[test]
fn the_best_split_is_chosen() {
    let start = scored(4.0, false, false);
    let cands = vec![
        scored(3.0, false, false),
        scored(5.0, false, false),
        scored(2.0, true, false),
        scored(2.9, false, true),
    ];
    let (best, improves) = choose_split(start, &cands, SplitPassMode::General);
    assert_eq!(best, Some(2));
    assert_eq!(improves, vec![true, false, true, false]);
    // A repair takes no oversized and no tiny halves.
    let (best, _) = choose_split(start, &cands, SplitPassMode::SlabCornerRepair);
    assert_eq!(best, Some(0));
    // Nor a gain of less than two hundredths.
    let (best, _) = choose_split(start, &vec![scored(3.95, false, false)], SplitPassMode::SlabCornerRepair);
    assert_eq!(best, None);
    let (best, _) = choose_split(start, &vec![scored(4.0, false, false)], SplitPassMode::General);
    assert_eq!(best, None);
}

fn all_alive(n: usize) -> Vec<Primitive> {
    (0..n).map(|_| primitive(1.0, vec![])).collect()
}

#[test]
fn a_culled_primitive_stays_dead_when_another_is_split() {
    let tris = strip(6);
    let adj = build_adjacency(&tris);
    let mut rings = FaceRings::from_groups(&vec![vec![0, 1], vec![2, 3], vec![5, 4]], 6);
    let mut prims = all_alive(6);
    for i in [1, 3, 4] {
        prims[i].alive = false;
    }
    // The second of the three was culled.
    prims[2].alive = false;
    assert_eq!(live_indices(&prims), vec![0, 5]);
    let mut pass = SplitPass::new(&mut rings, &prims, 4, SplitPassMode::General, None);
    let all = vec![true; 3];
    assert_eq!(pass.pick(&all, &scs(&[2.0, 9.0, 3.0])).unwrap().pid, 2);
    pass.accept(2, vec![5], vec![4], scored(1.0, false, true));
    pass.give_up(0);
    assert!(pass.pick(&vec![true; 4], &scs(&[9.0; 4])).is_none());
    let shapes: Vec<Shape> = (0..4)
        .map(|g| Shape { fit: fit(g as f32 + 1.0), proxies: vec![] })
        .collect();
    let mut after = pass.rebuild(&mut prims, &shapes, &tris, &vec![true; 6], &adj);
    assert_eq!(live_indices(&prims), vec![0, 4, 5]);
    assert_eq!(after.owner(3), 2);
    assert_eq!((prims[4].volume, prims[5].volume), (sc(4.0), sc(3.0)));
}

#[test]
fn the_worst_group_is_split_first() {
    let mut rings = FaceRings::from_groups(&vec![vec![0, 1, 2], vec![3, 4], vec![5]], 6);
    let mut p = SplitPass::new(&mut rings, &all_alive(6), 2, SplitPassMode::General, None);
    let all = vec![true; 3];
    let scores = scs(&[2.0, 3.0, 9.0]);
    // Group 2 has one face.
    let pick = p.pick(&all, &scores).unwrap();
    assert_eq!((pick.pid, pick.debug_only), (1, false));
    p.give_up(1);
    assert_eq!(p.pick(&all, &scores).unwrap().pid, 0);
    p.accept(0, vec![2], vec![0, 1], scored(1.9, false, true));
    assert_eq!(p.splits_done(), 1);
    assert_eq!(*p.groups().group(0), vec![2]);
    assert_eq!(*p.groups().group(3), vec![0, 1]);
    assert_eq!(p.groups().group_of(1), 3);
    assert_eq!((p.root(0), p.root(3)), (2, 0));
    let all = vec![true; 4];
    assert!(p.pick(&all, &scs(&[9.0, 9.0, 9.0, 1.0])).is_none());
    assert!(p.pick(&vec![false; 4], &scs(&[9.0; 4])).is_none());
    let pick = p.pick(&all, &scs(&[0.0, 0.0, 0.0, 1.5])).unwrap();
    assert_eq!(pick, Pick { pid: 3, debug_only: false, score: sc(1.5) });
    assert_eq!(pick.settles(Some(4)), Some(4));
    p.accept(3, vec![1], vec![0], scored(1.2, false, true));
    // The limit is reached.
    assert!(p.pick(&vec![true; 5], &scs(&[9.0; 5])).is_none());
}

#[test]
fn diagnostics_force_a_group() {
    let mut rings = FaceRings::from_groups(&vec![vec![0, 1], vec![3, 2]], 4);
    let debug = Some(SplitDebugOpts { primitive: Some(2) });
    let mut p = SplitPass::new(&mut rings, &all_alive(4), 1, SplitPassMode::General, debug);
    let quiet = scs(&[0.5, 0.5]);
    let pick = p.pick(&vec![true, true], &quiet).unwrap();
    assert_eq!(pick, Pick { pid: 1, debug_only: true, score: sc(0.5) });
    // What is tried for diagnostics alone is not split.
    assert_eq!(pick.settles(Some(0)), None);
    assert!(p.wants_debug(1) && !p.wants_debug(0));
    p.give_up(1);
    assert!(p.pick(&vec![true, true], &quiet).is_none());
    let all = SplitPass::new(&mut rings, &all_alive(4), 1, SplitPassMode::General, Some(SplitDebugOpts { primitive: None }));
    assert!(all.wants_debug(0) && all.wants_debug(1));
    let none = SplitPass::new(&mut rings, &all_alive(4), 1, SplitPassMode::General, None);
    assert!(!none.wants_debug(0));
}

#[test]
fn redundant_primitives_are_dropped() {
    let mut prims = vec![
        primitive(1.0, vec![1, 2]),
        primitive(5.0, vec![2, 3]),
        primitive(1.0, vec![8]),
        primitive(9.0, vec![3]),
    ];
    prims[3].alive = false;
    let mut c = Cull::new(CullRule::Redundant, &prims);
    let mut asked = Vec::new();
    while let Some((a, b)) = c.next(&prims) {
        asked.push((a, b));
        c.answer(&prims, true);
    }
    // 2 shares no vertex; 1 would be enclosed by 0, which is gone.
    assert_eq!(asked, vec![(0, 1)]);
    assert_eq!(c.apply(&mut prims), 1);
    assert!(!prims[0].alive && prims[1].alive && prims[2].alive);
    assert_eq!(prims[0].vertex_indices, vec![1, 2]);
}

#[test]
fn a_larger_primitive_is_not_redundant() {
    let mut prims = vec![primitive(5.0, vec![1]), primitive(1.0, vec![1])];
    let mut c = Cull::new(CullRule::Redundant, &prims);
    while let Some(_) = c.next(&prims) {
        c.answer(&prims, true);
    }
    assert_eq!(c.apply(&mut prims), 1);
    assert!(prims[0].alive && !prims[1].alive);
}

#[test]
fn overlap_asks_larger_ones_that_share_a_vertex() {
    let mut prims = vec![
        primitive(1.0, vec![1]),
        primitive(2.0, vec![9]),
        primitive(3.0, vec![1]),
    ];
    let mut c = Cull::new(CullRule::Overlap, &prims);
    let mut asked = Vec::new();
    while let Some(p) = c.next(&prims) {
        asked.push(p);
        c.answer(&prims, false);
    }
    assert_eq!(asked, vec![(0, 2)]);
    assert_eq!(c.apply(&mut prims), 0);
}

#[test]
fn details_near_larger_primitives_are_dropped() {
    let mut prims = vec![
        primitive(10.0, vec![1]),
        primitive(1.0, vec![2]),
        primitive(4.0, vec![3]),
        primitive(2.5, vec![4]),
    ];
    let doubled = scs(&[20.0, 2.0, 8.0, 5.0]);
    let detail = vec![true, true, true, false];
    let mut c = Cull::simplify(&prims, detail, doubled);
    let mut asked = Vec::new();
    while let Some((a, b)) = c.next(&prims) {
        asked.push((a, b));
        c.answer(&prims, (a, b) == (1, 2));
    }
    // Smallest first, against the largest first; at least twice as large.
    assert_eq!(asked, vec![(1, 0), (1, 2), (2, 0)]);
    assert_eq!(c.apply(&mut prims), 1);
    assert!(!prims[1].alive);
    assert!(prims[1].vertex_indices.is_empty());
    assert_eq!(prims[1].face_count, 0);
}

#[test]
fn thin_boxes_are_stripped() {
    let mut prims = vec![primitive(1.0, vec![]), primitive(1.0, vec![]), primitive(1.0, vec![])];
    prims[0].prim = block([1.0, 0.01, 2.0]);
    prims[2].prim = Prim::Sphere { center: [sc(0.0); 3], r: sc(0.001) };
    assert_eq!(strip_thin_obbs(&mut prims, sc(0.01)), 1);
    assert!(!prims[0].alive && prims[1].alive && prims[2].alive);
    assert_eq!(strip_thin_obbs(&mut prims, sc(0.01)), 0);
}

#[test]
fn bad_scores_come_worst_first() {
    assert_eq!(worst_first(&scs(&[1.0, 2.0, f32::NAN, 5.0, 2.0])), vec![3, 1, 4]);
    assert!(worst_first(&scs(&[1.0])).is_empty());
}

#[test]
fn repair_looks_at_slabs_of_the_mesh() {
    let mut prims: Vec<Primitive> = (0..5).map(|_| primitive(1.0, vec![])).collect();
    prims[1].face_count = 2;
    prims[2].alive = false;
    let slab = vec![true, true, true, false, true];
    assert_eq!(repair_candidates(&prims, 4, 1, 1, &slab), vec![0]);
    assert_eq!(repair_candidates(&prims, 5, 1, 3, &slab), vec![0, 1, 4]);
}

#[test]
fn pieces_take_the_place_of_a_slab() {
    let mut prims = vec![primitive(1.0, vec![4]), primitive(1.0, vec![5])];
    prims[0].neighbors = vec![1];
    let piece = |v: f32| Piece { fit: fit(v), corners: [[sc(v); 3]; 3] };
    replace_with_pieces(&mut prims, 0, &vec![piece(2.0), piece(3.0), piece(4.0)]);
    assert_eq!(prims.len(), 4);
    assert_eq!((prims[0].version, prims[0].volume), (4, sc(2.0)));
    assert_eq!(prims[0].neighbors, vec![1]);
    assert_eq!(prims[0].face_count, 0);
    assert!(prims[0].vertex_indices.is_empty());
    assert_eq!(prims[0].fit_proxy_points, vec![[sc(2.0); 3]; 3]);
    assert_eq!((prims[3].version, prims[3].volume), (0, sc(4.0)));
    assert!(prims[3].neighbors.is_empty() && prims[3].alive);
    assert_eq!(prims[1].vertex_indices, vec![5]);
}

#[test]
fn the_best_allowed_cut_is_chosen() {
    let o = |s: f32, oversized: bool, no_gain: bool| ScoredOption { max_score: sc(s), oversized, no_gain };
    assert_eq!(choose_option(&vec![o(1.0, true, false), o(3.0, false, false), o(2.0, false, false), o(2.0, false, false)]), Some(2));
    assert_eq!(choose_option(&vec![o(1.0, false, true)]), None);
    assert_eq!(choose_option(&vec![]), None);
}

#[test]
fn slabs_are_told_by_their_sizes() {
    let l = SlabLimits {
        min_volume: sc(1.0),
        thickness: sc(0.8),
        width: sc(0.35),
        length: sc(0.8),
        thin_thickness: sc(0.1),
        thin_width: sc(0.3),
        thin_length: sc(0.6),
    };
    let d = sort3([sc(2.0), sc(0.05), sc(0.4)]);
    assert_eq!(d, [sc(0.05), sc(0.4), sc(2.0)]);
    assert_eq!(sort3([sc(3.0), sc(2.0), sc(1.0)]), [sc(1.0), sc(2.0), sc(3.0)]);
    assert!(is_medium_slab(PrimKind::Obb, d, sc(1.0), &l));
    assert!(!is_medium_slab(PrimKind::Prism, d, sc(1.0), &l));
    assert!(!is_medium_slab(PrimKind::Obb, d, sc(0.5), &l));
    // Too small for a medium slab, but thin.
    assert!(is_repairable_slab(PrimKind::Obb, d, sc(0.5), &l));
    assert!(!is_repairable_slab(PrimKind::Capsule, d, sc(0.5), &l));
    assert!(!is_repairable_slab(PrimKind::Obb, [sc(0.2), sc(0.4), sc(2.0)], sc(0.5), &l));
    assert!(is_detail_like([sc(1.0), sc(2.0), sc(9.0)], sc(0.5), sc(2.0)));
    assert!(!is_detail_like([sc(1.0), sc(2.0), sc(9.0)], sc(0.5), sc(1.0)));
}

#[test]
fn repairs_stop_at_their_limit() {
    let mut r = RepairRun::new(vec![5, 6, 7], 2);
    assert_eq!(r.next(), Some(5));
    assert_eq!(r.next(), Some(6));
    r.repaired();
    assert_eq!(r.next(), Some(7));
    r.repaired();
    assert_eq!(r.next(), None);
    assert_eq!(r.repairs, 2);
    assert_eq!(RepairRun::new(vec![1], 0).next(), None);
}

#[test]
fn diagnostics_say_why_they_are_unavailable() {
    let mut prims = vec![primitive(1.0, vec![1, 2, 3, 4]), primitive(1.0, vec![1, 2, 3, 4])];
    prims[1].face_count = 2;
    let rings = FaceRings::new(2);
    assert_eq!(debug_status(&prims, &rings, 9), DebugStatus::OutOfRange);
    assert_eq!(debug_status(&prims, &rings, 0), DebugStatus::TooSmall);
    assert_eq!(debug_status(&prims, &rings, 1), DebugStatus::Ready);
    // A piece that owns no faces, and one that is beyond the faces.
    let joined = FaceRings::from_groups(&vec![vec![0, 1]], 2);
    assert_eq!(debug_status(&prims, &joined, 1), DebugStatus::WalkTooShort);
    assert_eq!(debug_status(&prims, &FaceRings::new(1), 1), DebugStatus::WalkTooShort);
    prims[1].alive = false;
    assert_eq!(debug_status(&prims, &rings, 1), DebugStatus::NotAlive);
    assert_eq!(DebugStatus::WalkTooShort.source(), "debug:unavailable:face_walk_too_short");
    assert_eq!(DebugStatus::OutOfRange.source(), "debug:unavailable:out_of_range");
    assert_eq!(DebugStatus::NotAlive.source(), "debug:unavailable:not_alive");
    assert_eq!(DebugStatus::TooSmall.source(), "debug:unavailable:insufficient_faces_or_vertices");
}

fn quiet() -> PassOptions {
    PassOptions {
        rebalance: None,
        cull_redundant: false,
        cull_overlap: false,
        split_worst: None,
        split_error_region: false,
        refine_search: false,
        repair_bad_slabs: None,
        debug_primitive: None,
        post_merge_budget: false,
        shrink_high_error: false,
        collision_simplify: false,
        strip_thin_obbs: false,
    }
}

#[test]
fn no_pass_unless_asked_for() {
    assert_eq!(Passes::new(quiet()).next(), None);
    let mut o = quiet();
    o.debug_primitive = Some(3);
    assert_eq!(Passes::new(o).next(), None);
}

/// The passes that are due, where each repair makes two changes, and how many
/// repairs were made.
fn repairs_of(o: PassOptions) -> (Vec<Pass>, usize) {
    let mut p = Passes::new(o);
    let mut seen = Vec::new();
    while let Some(x) = p.next() {
        if x != Pass::Shrink {
            seen.push(x);
        }
        p.report(match x {
            Pass::Split(_, n) | Pass::RepairFewFaces(n) | Pass::RepairOneFace(n) => n.min(2),
            _ => 0,
        });
    }
    (seen, p.progress.slab_repairs_done)
}

#[test]
fn repairs_do_not_depend_on_shrinking() {
    let mut o = quiet();
    o.repair_bad_slabs = Some(5);
    let (seen, repairs) = repairs_of(o);
    assert_eq!(
        seen,
        vec![
            Pass::Split(SplitPhase::BadSlabRepair, 5),
            Pass::RepairFewFaces(3),
            Pass::RepairOneFace(1),
        ]
    );
    assert_eq!(repairs, 5);
    o.shrink_high_error = true;
    assert_eq!(repairs_of(o), (seen, repairs));
}

#[test]
fn all_passes_in_order() {
    let o = PassOptions {
        rebalance: Some(5),
        cull_redundant: true,
        cull_overlap: true,
        split_worst: Some(32),
        split_error_region: true,
        refine_search: true,
        repair_bad_slabs: Some(10),
        debug_primitive: Some(7),
        post_merge_budget: true,
        shrink_high_error: true,
        collision_simplify: true,
        strip_thin_obbs: true,
    };
    let mut p = Passes::new(o);
    let mut seen = Vec::new();
    while let Some(x) = p.next() {
        seen.push(x);
        let n = match x {
            Pass::Split(SplitPhase::PreRefine, _) => 12,
            Pass::Split(SplitPhase::PostRefine, _) => 3,
            Pass::Split(SplitPhase::BadSlabRepair, _) => 4,
            Pass::RepairFewFaces(_) => 2,
            Pass::Compress => 1,
            _ => 0,
        };
        p.report(n);
    }
    assert_eq!(
        seen,
        vec![
            Pass::Rebalance(5),
            Pass::CullRedundant,
            Pass::CullOverlap,
            Pass::Split(SplitPhase::PreRefine, 32),
            Pass::Refine,
            Pass::Split(SplitPhase::PostRefine, 20),
            Pass::Refine,
            Pass::Split(SplitPhase::BadSlabRepair, 10),
            Pass::RepairFewFaces(6),
            Pass::RepairOneFace(4),
            Pass::Refine,
            Pass::DebugLive(7),
            Pass::Compress,
            Pass::Refine,
            Pass::Shrink,
            Pass::Simplify,
            Pass::StripThin,
        ]
    );
    assert_eq!(p.progress.splits_done, 15);
    assert_eq!(p.progress.slab_repairs_done, 6);
}

#[test]
fn used_up_limits_skip_passes() {
    let mut o = quiet();
    o.split_worst = Some(2);
    o.split_error_region = true;
    o.refine_search = true;
    o.repair_bad_slabs = Some(1);
    let mut p = Passes::new(o);
    assert_eq!(p.next(), Some(Pass::Split(SplitPhase::PreRefine, 2)));
    p.report(2);
    assert_eq!(p.next(), Some(Pass::Refine));
    p.report(0);
    assert_eq!(p.next(), Some(Pass::Split(SplitPhase::BadSlabRepair, 1)));
    p.report(1);
    assert_eq!(p.next(), Some(Pass::Refine));
    p.report(0);
    assert_eq!(p.next(), None);
}

#[test]
fn a_tree_is_built_where_distances_are_needed() {
    let none = DistanceUses {
        empty_space: false,
        quality_beta: sc(0.0),
        shell_aware: false,
        rebalance: false,
        feasibility: false,
        outside_space: false,
        outside_fit_beta: sc(0.0),
        split_worst: false,
        refine_search: false,
        repair_bad_slabs: false,
        post_merge_budget: false,
        shrink_high_error: false,
    };
    assert!(!none.needs_tree());
    let mut some = none;
    some.quality_beta = sc(0.5);
    assert!(some.needs_tree());
    let mut some = none;
    some.repair_bad_slabs = true;
    assert!(some.needs_tree());
}
