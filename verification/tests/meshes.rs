use cpd::bvh::Bvh;
use cpd::creases::{creases, sharp_edges, sharp_threshold, Crease};
use cpd::mesh::{
    aabb, append_indexed, append_sequential, build_adjacency, edge_faces, find_components,
    summarize_components, triangle_box, weld_vertices, Adjacency, Mesh,
};
use cpd::prim::Vec3;
use cpd::proximity::{all_near, build_proximity_edges, closest_pair, nearest_within, PairSet, Reach};
use cpd::scalar::Scalar;
use cpd::subdivide::Subdivision;
use cpd::tessellate::{box_tris, capsule_tris, drum_tris, prism_tris, push_grid, sphere_tris};

fn sc(x: f32) -> Scalar {
    Scalar { bits: x.to_bits() }
}

fn f(s: Scalar) -> f32 {
    f32::from_bits(s.bits)
}

fn v3(x: f32, y: f32, z: f32) -> Vec3 {
    [sc(x), sc(y), sc(z)]
}

fn sorted(v: &Vec<u32>) -> Vec<u32> {
    let mut w = v.clone();
    w.sort();
    w
}

#[test]
fn edges_list_their_faces() {
    let edges = edge_faces(&vec![[0, 1, 2], [2, 1, 3]]);
    assert_eq!(edges.len(), 5);
    let shared = edges.iter().find(|e| (e.u, e.v) == (1, 2)).unwrap();
    assert_eq!(shared.faces, vec![0, 1]);
    for e in &edges {
        assert!(e.u <= e.v);
        if (e.u, e.v) != (1, 2) {
            assert_eq!(e.faces.len(), 1);
        }
    }
}

#[test]
fn a_degenerate_face_is_on_an_edge_twice() {
    let edges = edge_faces(&vec![[0, 1, 0]]);
    let e = edges.iter().find(|e| (e.u, e.v) == (0, 1)).unwrap();
    assert_eq!(e.faces, vec![0, 0]);
    let loose = edges.iter().find(|e| (e.u, e.v) == (0, 0)).unwrap();
    assert_eq!(loose.faces, vec![0]);
}

#[test]
fn adjacency_needs_a_shared_edge() {
    // Three faces round an edge, one at a corner only, one far away.
    let tris = vec![[0, 1, 2], [1, 0, 3], [0, 1, 4], [2, 5, 6], [7, 8, 9]];
    let adj = build_adjacency(&tris);
    assert_eq!(sorted(&adj.neighbors[0]), vec![1, 2]);
    assert_eq!(sorted(&adj.neighbors[1]), vec![0, 2]);
    assert_eq!(sorted(&adj.neighbors[2]), vec![0, 1]);
    assert!(adj.neighbors[3].is_empty());
    assert!(adj.neighbors[4].is_empty());
}

#[test]
fn faces_that_share_two_edges_are_listed_once() {
    let adj = build_adjacency(&vec![[0, 1, 2], [2, 1, 0]]);
    assert_eq!(adj.neighbors[0], vec![1]);
    assert_eq!(adj.neighbors[1], vec![0]);
    assert!(build_adjacency(&vec![]).neighbors.is_empty());
}

#[test]
fn components_are_numbered_by_first_appearance() {
    let adj = Adjacency {
        neighbors: vec![vec![], vec![3], vec![4], vec![], vec![2], vec![1]],
    };
    assert_eq!(find_components(&adj), vec![0, 1, 2, 1, 2, 1]);
    let s = summarize_components(&adj);
    assert_eq!(s.n, 3);
    assert_eq!(s.faces_per, vec![vec![0], vec![1, 3, 5], vec![2, 4]]);
    assert_eq!(summarize_components(&Adjacency { neighbors: vec![] }).n, 0);
}

#[test]
fn welding_keeps_the_first_of_each_cell() {
    let mut m = Mesh {
        verts: vec![v3(0.0, 0.0, 0.0), v3(1.0, 0.0, 0.0), v3(0.0, 1.0, 0.0), v3(1.0, 0.0, 0.0), v3(0.0, 0.0, 1.0)],
        tris: vec![[0, 1, 2], [3, 4, 2], [1, 3, 0]],
    };
    let cells = vec![(0, 0, 0), (9, 0, 0), (0, 9, 0), (9, 0, 0), (0, 0, -9)];
    let collapsed = weld_vertices(&mut m, &cells);
    assert_eq!(collapsed, 1);
    assert_eq!(m.verts.len(), 4);
    assert_eq!(f(m.verts[3][2]), 1.0);
    // The last triangle has collapsed.
    assert_eq!(m.tris, vec![[0, 1, 2], [1, 3, 2]]);
}

#[test]
fn cells_differ_in_any_coordinate() {
    let mut m = Mesh {
        verts: vec![v3(0.0, 0.0, 0.0); 4],
        tris: vec![],
    };
    let cells = vec![
        (i64::MIN, 0, 0),
        (i64::MAX, 0, 0),
        (i64::MIN, 0, 1),
        (i64::MIN, -1, 0),
    ];
    assert_eq!(weld_vertices(&mut m, &cells), 0);
    assert_eq!(m.verts.len(), 4);
}

#[test]
fn box_of_vertices() {
    let (lo, hi) = aabb(&vec![v3(1.0, -2.0, 0.5), v3(f32::NAN, 3.0, -0.5)]);
    assert_eq!((f(lo[0]), f(lo[1]), f(lo[2])), (1.0, -2.0, -0.5));
    assert_eq!((f(hi[0]), f(hi[1]), f(hi[2])), (1.0, 3.0, 0.5));
    let (lo, hi) = aabb(&vec![]);
    assert_eq!((lo[0].bits, hi[2].bits), (0, 0));
    let (lo, hi) = triangle_box(v3(1.0, 5.0, 0.0), v3(2.0, -5.0, 0.0), v3(0.5, 0.0, 7.0));
    assert_eq!((f(lo[0]), f(lo[1]), f(lo[2])), (0.5, -5.0, 0.0));
    assert_eq!((f(hi[0]), f(hi[1]), f(hi[2])), (2.0, 5.0, 7.0));
}

#[test]
fn index_lists_are_offset_and_cut_by_threes() {
    let mut tris = vec![[9, 9, 9]];
    append_indexed(&mut tris, 10, &vec![0, 1, 2, 2, 1, 3, 7]);
    assert_eq!(tris, vec![[9, 9, 9], [10, 11, 12], [12, 11, 13]]);
    append_sequential(&mut tris, 4, 7);
    assert_eq!(tris[3..], [[4, 5, 6], [7, 8, 9]]);
}

#[test]
fn creases_are_edges_with_two_faces() {
    let tris = vec![[0, 1, 2], [1, 0, 3], [2, 1, 4], [1, 2, 5]];
    // Edge 1-2 has three faces and is no crease.
    let c = creases(&tris, None);
    assert_eq!(c, vec![Crease { u: 0, v: 1, f0: 0, f1: 1 }]);
    assert!(creases(&tris, Some(&vec![true, false, true, true])).is_empty());
    assert_eq!(creases(&tris, Some(&vec![true, true, false, false])).len(), 1);
}

#[test]
fn sharp_creases_go_to_both_faces() {
    let c = vec![
        Crease { u: 0, v: 1, f0: 0, f1: 1 },
        Crease { u: 1, v: 2, f0: 1, f1: 2 },
        Crease { u: 3, v: 4, f0: 2, f1: 2 },
    ];
    let cosines = vec![sc(0.2), sc(0.9), sc(-1.0)];
    let per_face = sharp_edges(&c, &cosines, sc(0.8), 3);
    assert_eq!(per_face, vec![vec![0], vec![0], vec![2, 2]]);
}

#[test]
fn sharp_threshold_is_a_clamped_percentile() {
    let angles: Vec<Scalar> = (0..100).rev().map(|i| sc(i as f32)).collect();
    assert_eq!(f(sharp_threshold(&angles, sc(0.0), sc(1000.0))), 95.0);
    assert_eq!(f(sharp_threshold(&angles, sc(0.0), sc(60.0))), 60.0);
    assert_eq!(f(sharp_threshold(&vec![sc(0.1)], sc(0.5), sc(1.0))), 0.5);
    assert_eq!(f(sharp_threshold(&vec![], sc(0.5), sc(1.0))), 0.5);
}

#[test]
fn nearest_within_reach() {
    let at = [0.0f32, 10.0, 1.0, 2.0, 2.0];
    let dist = |j: usize| sc((at[j] - at[0]).abs());
    let cos = |j: usize| sc(if j == 2 { 0.1 } else { 1.0 });
    let reach = Reach {
        max_dist: sc(5.0),
        cos_min: sc(0.5),
    };
    // The three nearest are 2, 3 and 4; 2 faces another way.
    assert_eq!(nearest_within(0, 5, dist, cos, 3, reach), vec![3, 4]);
    assert_eq!(nearest_within(0, 5, dist, cos, 2, reach), vec![3]);
    assert_eq!(nearest_within(0, 5, dist, cos, 99, reach), vec![3, 4]);
    let lists = all_near(2, |i, j| sc(if i < j { 1.0 } else { 9.0 }), |_, _| sc(1.0), 1, reach);
    assert_eq!(lists, vec![vec![1], vec![]]);
}

#[test]
fn closest_pair_is_the_first_least() {
    let d = |a: u32, b: u32| sc(((a as f32) - (b as f32)).abs());
    assert_eq!(closest_pair(&vec![1, 7], &vec![20, 9], d), (7, 9));
    assert_eq!(closest_pair(&vec![4, 4], &vec![5, 3], d), (4, 5));
    assert_eq!(closest_pair(&vec![4, 2], &vec![5, 3], |_, _| sc(f32::NAN)), (4, 5));
}

#[test]
fn pairs_are_kept_once() {
    let mut s = PairSet::new();
    s.insert(5, 2);
    s.insert(2, 5);
    s.insert(2, 2);
    assert_eq!(s.into_list(), vec![(2, 5), (2, 2)]);
}

#[test]
fn proximity_edges_join_near_components() {
    let faces_per = vec![vec![0, 1], vec![2], vec![3, 4]];
    let center = [0.0f32, 1.0, 50.0];
    let reach = Reach {
        max_dist: sc(2.0),
        cos_min: sc(0.5),
    };
    let edges = build_proximity_edges(
        &faces_per,
        1,
        reach,
        |i, j| sc((center[i] - center[j]).abs()),
        |_, _| sc(1.0),
        |a, b| sc(((a as f32) - (b as f32)).abs()),
    );
    assert_eq!(edges, vec![(1, 2)]);
    let none = build_proximity_edges(
        &vec![vec![0]],
        3,
        reach,
        |_, _| sc(0.0),
        |_, _| sc(1.0),
        |_, _| sc(0.0),
    );
    assert!(none.is_empty());
}

fn line_tree(n: usize) -> Bvh {
    let mins: Vec<Vec3> = (0..n).map(|i| v3(i as f32, 0.0, 0.0)).collect();
    let maxs: Vec<Vec3> = (0..n).map(|i| v3(i as f32 + 0.5, 1.0, 1.0)).collect();
    let mids: Vec<Vec3> = (0..n).map(|i| v3(i as f32 + 0.25, 0.5, 0.5)).collect();
    Bvh::build(mins, maxs, mids, |lo, hi| (0, sc(0.5 * (f(lo[0]) + f(hi[0])))))
}

#[test]
fn tree_finds_the_nearest_face() {
    let t = line_tree(40);
    for q in 0..40 {
        let x = q as f32 + 0.3;
        let bound = |lo: Vec3, hi: Vec3| {
            let d = (f(lo[0]) - x).max(x - f(hi[0])).max(0.0);
            sc(d)
        };
        let dist = |i: u32| sc((i as f32 + 0.25 - x).abs());
        let (face, d) = t.nearest_face(bound, dist);
        assert_eq!(face, q as u32);
        assert!((f(d) - 0.05).abs() < 1e-3);
    }
}

#[test]
fn a_search_that_finds_nothing_gives_face_zero() {
    let t = line_tree(9);
    let (face, d) = t.nearest_face(|_, _| sc(0.0), |_| sc(f32::INFINITY));
    assert_eq!((face, d), (0, Scalar::infinity()));
}

#[test]
fn tree_answers_ray_queries() {
    let t = line_tree(33);
    assert!(t.any_hit(|lo, hi| f(lo[0]) <= 20.1 && 20.1 <= f(hi[0]), |i| i == 20));
    assert!(!t.any_hit(|_, _| true, |_| false));
    assert!(!t.any_hit(|_, _| false, |_| true));
}

#[test]
fn tree_with_equal_centroids_is_cut_in_the_middle() {
    let n = 11;
    let t = Bvh::build(
        vec![v3(0.0, 0.0, 0.0); n],
        vec![v3(1.0, 1.0, 1.0); n],
        vec![v3(0.5, 0.5, 0.5); n],
        |_, _| (2, sc(0.5)),
    );
    for i in 0..n as u32 {
        let (face, _) = t.nearest_face(|_, _| sc(0.0), |j| sc(if i == j { 1.0 } else { 2.0 }));
        assert_eq!(face, i);
    }
}

fn directed(tris: &Vec<[u32; 3]>) -> Vec<(u32, u32)> {
    let mut out = Vec::new();
    for t in tris {
        out.push((t[0], t[1]));
        out.push((t[1], t[2]));
        out.push((t[2], t[0]));
    }
    out
}

#[test]
fn box_is_closed_and_oriented() {
    let t = box_tris();
    assert_eq!(t.len(), 12);
    let d = directed(&t);
    for &(u, v) in &d {
        assert_eq!(d.iter().filter(|&&e| e == (u, v)).count(), 1);
        assert_eq!(d.iter().filter(|&&e| e == (v, u)).count(), 1);
    }
}

#[test]
fn prism_and_drum_are_watertight() {
    assert_eq!(prism_tris()[..3], [[0, 1, 2], [0, 2, 3], [4, 6, 5]]);
    for t in [prism_tris(), drum_tris(3), drum_tris(24)] {
        let d = directed(&t);
        for &(u, v) in &d {
            let n = d.iter().filter(|&&e| e == (u, v) || e == (v, u)).count();
            assert_eq!(n, 2);
        }
    }
    let t = drum_tris(24);
    assert_eq!(t.len(), 96);
    assert_eq!(t[46], [46, 47, 1]);
    assert_eq!(t[48], [48, 2, 0]);
    assert_eq!(t[95], [49, 47, 1]);
}

#[test]
fn grids_have_two_triangles_per_cell() {
    let t = sphere_tris(16, 12);
    assert_eq!(t.len(), 2 * 16 * 12);
    assert_eq!(t[0], [0, 17, 1]);
    assert_eq!(t[1], [1, 17, 18]);
    assert_eq!(t[32], [17, 34, 18]);
    assert!(t.iter().all(|t| t.iter().all(|&i| i < 17 * 13)));
    let mut g = vec![[7, 7, 7]];
    push_grid(&mut g, 5, 1, 1);
    assert_eq!(g, vec![[7, 7, 7], [5, 7, 6], [6, 7, 8]]);
}

#[test]
fn capsule_is_a_tube_and_two_caps() {
    let t = capsule_tris(24, 8);
    assert_eq!(t.len(), 2 * 24 + 2 * (2 * 24 * 8));
    assert_eq!(t[0], [0, 1, 3]);
    assert_eq!(t[1], [0, 3, 2]);
    assert_eq!(t[48], [50, 75, 51]);
    let n = 2 * 25 + 2 * 25 * 9;
    assert!(t.iter().all(|t| t.iter().all(|&i| i < n)));
    assert!(t.iter().any(|t| t.iter().any(|&i| i == n - 1)));
}

#[test]
fn bad_faces_are_split_in_three() {
    let mut s = Subdivision::new(vec![[0, 1, 2], [2, 1, 3]], 2);
    assert!(s.goes_on());
    assert!(s.may_split(0));
    assert_eq!(s.run_round(&vec![false, true], 4), vec![1]);
    assert_eq!(*s.tris(), vec![[0, 1, 2], [2, 1, 4], [1, 3, 4], [3, 2, 4]]);
    assert!(s.goes_on());
    assert_eq!(s.run_round(&vec![false, true, false, false], 5), vec![1]);
    assert!(!s.goes_on());
    let (tris, stats) = s.finish();
    assert_eq!(tris.len(), 6);
    assert_eq!(tris[1], [2, 1, 5]);
    assert_eq!(stats.split_faces, 2);
    assert_eq!(stats.added_tris, 4);
    assert_eq!(stats.max_depth_reached, 2);
}

#[test]
fn a_round_without_splits_is_the_last() {
    let mut s = Subdivision::new(vec![[0, 1, 2]], 5);
    assert!(s.run_round(&vec![false], 3).is_empty());
    assert!(!s.goes_on());
    let (_, stats) = s.finish();
    assert_eq!((stats.split_faces, stats.added_tris, stats.max_depth_reached), (0, 0, 0));
    // A face that has been split off as often as allowed stays.
    let mut s = Subdivision::new(vec![[0, 1, 2]], 1);
    s.run_round(&vec![true], 3);
    assert!(!s.may_split(0));
}
