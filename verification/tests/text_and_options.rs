use cpd::cli::{parse_args, Arg, ArgError, CliArgs, Command, Flag, Number};
use cpd::fitting::{
    all_kinds, axes_to_try, axis_orders, fit_points, kinds_to_fit, kinds_to_score, shell_faces,
    shell_points, shell_vertices,
};
use cpd::metrics::{append_part, tally, upper_bound, worst_primitive, Lcg};
use cpd::planes::{
    combine_fit_mask, detail_of, is_supported, join_plane, mask_details, size_mask, support_order,
    DetailReason, Planes,
};
use cpd::prim::{kind_tag, Prim, PrimKind, PrimMask};
use cpd::primitive::Primitive;
use cpd::report::{
    count_by_kind, obj_text, object, viewer_data, Field, JsonValue, MeshPart, Metrics, NumberText,
    Rounded, Share, SplitDebugRow, SplitPhase,
};
use cpd::scalar::Scalar;
use cpd::text::{parse_decimal, push_escaped, push_joined, push_number, same_text};

fn sc(x: f32) -> Scalar {
    Scalar { bits: x.to_bits() }
}

fn scs(xs: &[f32]) -> Vec<Scalar> {
    xs.iter().map(|&x| sc(x)).collect()
}

fn args(texts: &[&str]) -> Vec<Arg> {
    texts
        .iter()
        .map(|t| Arg {
            text: t.to_string(),
            number: t.parse::<f32>().ok().map(|x| Number {
                value: sc(x),
                in_radians: sc(x.to_radians()),
            }),
        })
        .collect()
}

fn run(texts: &[&str]) -> CliArgs {
    match parse_args(&args(texts)) {
        Ok(Command::Run(c)) => c,
        Ok(Command::Help) => panic!("no help was asked for"),
        Err(e) => panic!("{}", e.message()),
    }
}

fn refusal(texts: &[&str]) -> ArgError {
    match parse_args(&args(texts)) {
        Err(e) => e,
        Ok(_) => panic!("this should be refused"),
    }
}

#[test]
fn defaults_of_the_command_line() {
    let c = run(&["a.glb", "32"]);
    assert_eq!(c.mesh_path, "a.glb");
    assert_eq!(c.target_n, 32);
    assert_eq!(c.out_obj, "obbs.obj");
    assert!(c.viewer_html.is_none() && c.metrics_json.is_none() && c.split_debug_json.is_none());
    assert_eq!(c.enable_mask, PrimMask::all());
    assert_eq!(c.post_merge_budget, None);
    let s = &c.settings;
    assert_eq!(s.volume_threshold_frac, sc(f32::INFINITY));
    assert_eq!(s.tangent_eps, sc(0.01));
    assert!(s.cull_redundant && s.refine_orient && !s.metrics);
    assert!(s.empty_space.is_none() && s.rebalance.is_none() && s.proximity.is_none());
}

#[test]
fn options_and_positions_mix() {
    let c = run(&["--no-cull", "a.glb", "--viewer", "v.html", "+8", "--quality", "1.5", "out.obj", "more"]);
    assert_eq!((c.mesh_path.as_str(), c.target_n, c.out_obj.as_str()), ("a.glb", 8, "out.obj"));
    assert_eq!(c.viewer_html.as_deref(), Some("v.html"));
    assert!(!c.settings.cull_redundant);
    assert_eq!(c.settings.quality_beta, sc(1.5));
}

#[test]
fn paired_options_keep_each_other() {
    let c = run(&["a", "1", "--split-worst-max", "7", "--split-worst", "0.2"]);
    assert_eq!(c.settings.split_worst, Some((sc(0.2), 7)));
    let c = run(&["a", "1", "--split-worst", "0.2"]);
    assert_eq!(c.settings.split_worst, Some((sc(0.2), 32)));
    let c = run(&["a", "1", "--split-worst-max", "7"]);
    assert_eq!(c.settings.split_worst, Some((sc(0.05), 7)));
    let c = run(&["a", "1", "--split-error-region"]);
    assert_eq!(c.settings.split_worst, Some((sc(0.05), 32)));
    let c = run(&["a", "1", "--repair-bad-slabs-max", "4"]);
    assert_eq!(c.settings.repair_bad_slabs, Some((sc(0.03), 4)));
    let c = run(&["a", "1", "--proximity-k", "5", "--proximity-angle", "90"]);
    assert_eq!(c.settings.proximity, Some((sc(0.05), 5, sc(90f32.to_radians()))));
    let c = run(&["a", "1", "--proximity"]);
    assert_eq!(c.settings.proximity, Some((sc(0.05), 2, sc(std::f32::consts::FRAC_PI_4))));
    let c = run(&["a", "1", "--empty-space-distance", "0.5"]);
    assert_eq!(c.settings.empty_space, Some((sc(0.25), sc(0.5))));
    let c = run(&["a", "1", "--empty-space-fraction", "0.5"]);
    assert_eq!(c.settings.empty_space, Some((sc(0.5), sc(0.01))));
    let c = run(&["a", "1", "--rebalance-passes", "9", "--rebalance"]);
    assert_eq!(c.settings.rebalance, Some(9));
    let c = run(&["a", "1", "--rebalance"]);
    assert_eq!(c.settings.rebalance, Some(5));
    let c = run(&["a", "1", "--strip-thin"]);
    assert_eq!(c.settings.strip_thin_obbs, Some(sc(1e-4)));
    let c = run(&["a", "1", "--subdivide-bad-faces-max-depth", "2"]);
    assert_eq!(c.settings.subdivide_bad_faces, Some((sc(0.05), 2)));
    let c = run(&["a", "1", "--refine-search", "0.1"]);
    assert_eq!(c.settings.refine_search, Some((sc(0.1), 20)));
    let c = run(&["a", "1", "--metrics-json", "m.json"]);
    assert!(c.settings.metrics);
    assert_eq!(c.metrics_json.as_deref(), Some("m.json"));
}

#[test]
fn bare_switches_keep_what_was_given() {
    let c = run(&["a", "1", "--empty-space-fraction", "0.10", "--empty-space"]);
    assert_eq!(c.settings.empty_space, Some((sc(0.10), sc(0.01))));
    let c = run(&["a", "1", "--empty-space", "--empty-space-fraction", "0.10"]);
    assert_eq!(c.settings.empty_space, Some((sc(0.10), sc(0.01))));
    let c = run(&["a", "1", "--empty-space"]);
    assert_eq!(c.settings.empty_space, Some((sc(0.25), sc(0.01))));
    let c = run(&["a", "1", "--proximity-r", "0.10", "--proximity"]);
    assert_eq!(c.settings.proximity, Some((sc(0.10), 2, sc(std::f32::consts::FRAC_PI_4))));
    let c = run(&["a", "1", "--proximity", "--proximity-r", "0.10"]);
    assert_eq!(c.settings.proximity, Some((sc(0.10), 2, sc(std::f32::consts::FRAC_PI_4))));
}

#[test]
fn boxes_only_overrides_the_other_switches() {
    let c = run(&["a", "1", "--no-prism", "--no-sphere"]);
    assert!(!c.enable_mask.prism && !c.enable_mask.sphere && c.enable_mask.cylinder);
    let c = run(&["a", "1", "--obb-only", "--no-prism"]);
    assert_eq!(c.enable_mask, PrimMask::obb_only());
}

#[test]
fn the_budget_threshold_has_fallbacks() {
    let c = run(&["a", "1", "--post-merge-budget", "9"]);
    assert_eq!(c.post_merge_budget, Some((9, sc(0.03))));
    let c = run(&["a", "1", "--post-merge-budget", "9", "--split-worst", "0.2"]);
    assert_eq!(c.post_merge_budget, Some((9, sc(0.2))));
    let c = run(&["a", "1", "--post-merge-budget", "9", "--split-worst", "0.2", "--repair-bad-slabs", "0.1"]);
    assert_eq!(c.post_merge_budget, Some((9, sc(0.1))));
    let c = run(&["a", "1", "--post-merge-budget", "9", "--repair-bad-slabs", "0.1", "--post-merge-hausdorff", "0.4"]);
    assert_eq!(c.post_merge_budget, Some((9, sc(0.4))));
}

#[test]
fn help_ends_the_reading() {
    assert!(matches!(parse_args(&args(&["--help", "--quality"])), Ok(Command::Help)));
    assert!(matches!(parse_args(&args(&["-h"])), Ok(Command::Help)));
    // What comes before it is read first.
    assert_eq!(refusal(&["--quality", "x", "-h"]), ArgError::BadValue(Flag::Quality));
}

#[test]
fn missing_and_bad_values_are_refused() {
    let e = refusal(&["a", "1", "--viewer"]);
    assert_eq!((e, e.message()), (ArgError::MissingValue(Flag::Viewer), "--viewer needs a path"));
    let e = refusal(&["a", "1", "--quality", "much"]);
    assert_eq!(e.message(), "--quality beta must be f32");
    let e = refusal(&["a", "1", "--feasibility", "x"]);
    assert_eq!(e.message(), "not a float");
    for bad in ["", "+", "-1", "1.5", "0x10", "99999999999999999999999", "1 "] {
        let e = refusal(&["a", "1", "--split-worst-max", bad]);
        assert_eq!((e, e.message()), (ArgError::BadValue(Flag::SplitWorstMax), "not an integer"));
    }
    let e = refusal(&["a", "1", "--debug-primitive", "4294967296"]);
    assert_eq!(e, ArgError::BadValue(Flag::DebugPrimitive));
    assert_eq!(refusal(&["a", "many"]), ArgError::BadTarget);
    assert_eq!(ArgError::BadTarget.message(), "target_n must be a positive integer");
}

#[test]
fn objections_to_the_options() {
    assert_eq!(refusal(&["a"]).message(), "missing positional args");
    assert_eq!(refusal(&[]), ArgError::MissingPositional);
    assert_eq!(
        refusal(&["a", "1", "--debug-primitive", "3"]).message(),
        "--debug-primitive requires --debug-splits <path>"
    );
    for (opts, want) in [
        (vec!["--subdivide-bad-faces", "0"], ArgError::SubdivideFraction),
        (vec!["--subdivide-bad-faces-max-depth", "0"], ArgError::SubdivideDepth),
        (vec!["--collision-simplify", "-1"], ArgError::SimplifyFraction),
        (vec!["--outside-space", "nan"], ArgError::OutsideFraction),
        (vec!["--repair-bad-slabs", "inf"], ArgError::RepairFraction),
        (vec!["--repair-bad-slabs-max", "0"], ArgError::RepairCount),
        (vec!["--post-merge-budget", "0"], ArgError::BudgetCount),
        (vec!["--post-merge-hausdorff", "0"], ArgError::HausdorffFraction),
        (vec!["--post-merge-hausdorff", "1"], ArgError::HausdorffAlone),
        (vec!["--shrink-high-error", "0"], ArgError::ShrinkFraction),
        (vec!["--outside-fit", "-2"], ArgError::OutsideFitBeta),
        (vec!["--outside-fit", "2"], ArgError::OutsideFitAlone),
        (vec!["--collision-target-scale", "0"], ArgError::TargetScale),
        (vec!["--collision-ignore-detail", "0"], ArgError::IgnoreDetailFraction),
        (vec!["--collision-support-planes", "0"], ArgError::SupportPlanesFraction),
    ] {
        let mut all = vec!["a", "1"];
        all.extend(opts);
        assert_eq!(refusal(&all), want);
    }
    // A beta of minus zero is no beta.
    run(&["a", "1", "--outside-fit", "-0"]);
    run(&["a", "1", "--outside-fit", "2", "--outside-space", "0.1"]);
    // Objections come before the target is read.
    assert_eq!(refusal(&["a", "x", "--post-merge-budget", "0"]), ArgError::BudgetCount);
}

#[test]
fn numbers_are_read_and_written() {
    assert_eq!(parse_decimal("18446744073709551615", u64::MAX), Some(u64::MAX));
    assert_eq!(parse_decimal("18446744073709551616", u64::MAX), None);
    assert_eq!(parse_decimal("+007", 10), Some(7));
    assert_eq!(parse_decimal("11", 10), None);
    assert_eq!(parse_decimal("++1", 10), None);
    let mut s = String::new();
    for n in [0, 7, 10, 1234567890, u64::MAX] {
        let mut t = String::new();
        push_number(&mut t, n);
        assert_eq!(t, n.to_string());
        s.push_str(&t);
    }
    assert!(same_text(&"abc".to_string(), "abc"));
    assert!(!same_text(&"abc".to_string(), "abd"));
}

#[test]
fn texts_are_escaped_and_joined() {
    let mut s = String::new();
    push_escaped(&mut s, "a\\\"é");
    assert_eq!(s, "a\\\\\\\"é");
    let mut s = "<".to_string();
    push_joined(&mut s, &vec!["1".to_string(), "2".to_string()], ", ");
    assert_eq!(s, "<1, 2");
    push_joined(&mut s, &vec![], ", ");
    assert_eq!(s, "<1, 2");
}

#[test]
fn objects_are_written() {
    let f = vec![
        Field { name: "n", value: JsonValue::Count(5) },
        Field { name: "t", value: JsonValue::Text("a\"b".to_string()) },
        Field { name: "r", value: JsonValue::Raw("0.5".to_string()) },
        Field { name: "b", value: JsonValue::Flag(true) },
        Field { name: "c", value: JsonValue::Flag(false) },
    ];
    assert_eq!(object(&f), r#"{"n":5,"t":"a\"b","r":0.5,"b":true,"c":false}"#);
    assert_eq!(object(&vec![]), "{}");
}

fn num(x: f32) -> NumberText {
    NumberText { value: sc(x), text: x.to_string() }
}

#[test]
fn a_split_row_is_a_line_of_json() {
    let row = SplitDebugRow {
        pass: SplitPhase::PostRefine,
        split_attempt: 1,
        primitive_root: 2,
        compact_pid: 3,
        candidate_index: 4,
        source: "error:\"x\"".to_string(),
        original_kind: PrimKind::Cylinder,
        original_face_count: 5,
        original_hausdorff: num(0.5),
        threshold: num(0.25),
        faces_a: 6,
        faces_b: 7,
        kind_a: PrimKind::Obb,
        kind_b: PrimKind::Prism,
        hausdorff_a: num(1.0),
        hausdorff_b: num(2.0),
        hausdorff_max: num(2.0),
        delta_hausdorff_max: num(1.5),
        volume_a: num(3.0),
        volume_b: num(4.0),
        volume_sum: num(7.0),
        delta_volume_sum: num(-1.0),
        would_improve: true,
        accepted: false,
        witness_dist: Some(num(f32::NAN)),
        witness_sample: Some([num(1.0), num(2.0), num(3.5)]),
        witness_nearest: None,
        witness_normal: Some([num(1.0), num(f32::INFINITY), num(0.0)]),
    };
    assert_eq!(
        row.json_line(),
        concat_all(&[
            r#"{"pass":"post_refine","split_attempt":1,"primitive_root":2,"compact_pid":3,"#,
            r#""candidate_index":4,"source":"error:\"x\"","original_kind":"cylinder","#,
            r#""original_face_count":5,"original_hausdorff":0.5,"threshold":0.25,"faces_a":6,"#,
            r#""faces_b":7,"kind_a":"obb","kind_b":"prism","hausdorff_a":1,"hausdorff_b":2,"#,
            r#""hausdorff_max":2,"delta_hausdorff_max":1.5,"volume_a":3,"volume_b":4,"#,
            r#""volume_sum":7,"delta_volume_sum":-1,"would_improve":true,"accepted":false,"#,
            r#""witness_dist":null,"witness_sample":[1,2,3.5],"witness_nearest":null,"witness_normal":null}"#,
        ])
    );
    assert_eq!(SplitPhase::PreRefine.name(), "pre_refine");
    assert_eq!(SplitPhase::BadSlabRepair.name(), "bad_slab_repair");
    assert_eq!(SplitPhase::DebugLive.name(), "debug_live");
}

fn concat_all(parts: &[&str]) -> String {
    parts.concat()
}

fn ball() -> Prim {
    Prim::Sphere { center: [sc(0.0); 3], r: sc(1.0) }
}

fn drum() -> Prim {
    Prim::Cylinder { center: [sc(0.0); 3], axis: [sc(0.0); 3], h: sc(1.0), r: sc(1.0) }
}

fn primitive(prim: Prim, alive: bool) -> Primitive {
    Primitive {
        alive,
        version: 0,
        q: [sc(0.0); 9],
        prim,
        volume: sc(1.0),
        weighted_volume: sc(1.0),
        face_count: 1,
        vertex_indices: vec![],
        fit_vertex_indices: vec![],
        fit_proxy_points: vec![],
        neighbors: vec![],
    }
}

#[test]
fn live_primitives_are_counted_by_kind() {
    let prims = vec![primitive(ball(), true), primitive(drum(), true), primitive(ball(), false), primitive(ball(), true)];
    assert_eq!(count_by_kind(&prims), "obb=0 sphere=2 cyl=1 cap=0 frustum=0 prism=0");
    let t = tally(&prims);
    assert_eq!((t.total, t.sphere, t.cylinder, t.obb), (3, 2, 1, 0));
    assert_eq!(count_by_kind(&vec![]), "obb=0 sphere=0 cyl=0 cap=0 frustum=0 prism=0");
}

fn measures() -> Metrics {
    Metrics {
        samples: 10,
        counts: tally(&vec![primitive(ball(), true)]),
        total_volume: num(1.5),
        aabb_volume: num(2.0),
        volume_ratio: num(0.75),
        hausdorff: num(1.0),
        hausdorff_norm: num(2.0),
        chamfer: num(3.0),
        chamfer_norm: num(4.0),
        reverse_hausdorff: num(5.0),
        reverse_hausdorff_norm: num(6.0),
        reverse_chamfer: num(7.0),
        reverse_chamfer_norm: num(8.0),
        hausdorff_2way: num(9.0),
        hausdorff_2way_norm: num(10.0),
        chamfer_2way: num(11.0),
        chamfer_2way_norm: num(12.0),
        coverage_fraction: num(0.5),
        worst_prim_idx: 7,
        worst_prim_kind: PrimKind::Cylinder,
        worst_prim_max: num(13.0),
        worst_prim_volume: num(0.25),
    }
}

fn share(text: &str, percent: &str) -> Share {
    Share {
        text: text.to_string(),
        percent: percent.to_string(),
    }
}

#[test]
fn metrics_for_a_reader() {
    let r = Rounded {
        total_volume: "1.5000".to_string(),
        aabb_volume: "2.0000".to_string(),
        volume_ratio: "75.0".to_string(),
        hausdorff: share("1.00000", "10.0000"),
        chamfer: share("2.00000", "20.0000"),
        reverse_hausdorff: share("3.00000", "30.0000"),
        reverse_chamfer: share("4.00000", "40.0000"),
        hausdorff_2way: share("5.00000", "50.0000"),
        chamfer_2way: share("6.00000", "60.0000"),
        coverage_fraction: "0.5000".to_string(),
        worst_prim_max: "13.0000".to_string(),
        worst_prim_volume: "0.2500".to_string(),
    };
    let expected = [
        "metrics:",
        "  primitives:        1  (obb=0 sphere=1 cyl=0 cap=0 frustum=0 prism=0)",
        "  total volume:      1.5000",
        "  aabb volume:       2.0000  (75.0% ratio)",
        "  hausdorff fwd:     1.00000  (10.0000% of diag)   [primitive→input, paper §4.4]",
        "  chamfer   fwd:     2.00000  (20.0000% of diag)",
        "  hausdorff rev:     3.00000  (30.0000% of diag)   [input→primitive surf, gap detector]",
        "  chamfer   rev:     4.00000  (40.0000% of diag)",
        "  hausdorff 2-way:   5.00000  (50.0000% of diag)   [max of fwd/rev — honest number]",
        "  chamfer   2-way:   6.00000  (60.0000% of diag)",
        "  coverage fraction: 0.5000                       [frac of input pts inside any primitive]",
        "  worst primitive:   #7 Cylinder, max-sample-dist 13.0000, vol 0.2500",
        "  samples used:      10",
    ];
    assert_eq!(measures().human(&r), expected.join("\n"));
}

#[test]
fn metrics_as_json() {
    assert_eq!(
        measures().json(),
        concat_all(&[
            r#"{"primitives":1,"by_kind":{"obb":0,"sphere":1,"cylinder":0,"capsule":0,"frustum":0,"prism":0},"#,
            r#""total_volume":1.5,"aabb_volume":2,"volume_ratio":0.75,"hausdorff":1,"hausdorff_norm":2,"#,
            r#""chamfer":3,"chamfer_norm":4,"reverse_hausdorff":5,"reverse_hausdorff_norm":6,"#,
            r#""reverse_chamfer":7,"reverse_chamfer_norm":8,"hausdorff_2way":9,"hausdorff_2way_norm":10,"#,
            r#""chamfer_2way":11,"chamfer_2way_norm":12,"coverage_fraction":0.5,"#,
            r#""worst_prim_idx":7,"worst_prim_kind":"cylinder","worst_prim_max":13,"worst_prim_volume":0.25,"samples":10}"#,
        ])
    );
}

fn part(prim: Prim, id: u32, verts: &[&str], tris: Vec<[u32; 3]>) -> MeshPart {
    MeshPart {
        prim,
        id,
        volume: "2".to_string(),
        vertices: verts.iter().map(|s| s.to_string()).collect(),
        tris,
    }
}

#[test]
fn obj_files_number_vertices_through() {
    let parts = vec![
        part(ball(), 3, &["0 0 0", "1 0 0", "0 1 0"], vec![[0, 1, 2]]),
        part(drum(), 7, &["5 5 5"], vec![[0, 0, 0]]),
    ];
    assert_eq!(
        obj_text(&parts),
        "# convex primitive decomposition output\ng sphere_3\nv 0 0 0\nv 1 0 0\nv 0 1 0\nf 1 2 3\ng cyl_7\nv 5 5 5\nf 4 4 4\n"
    );
    assert_eq!(obj_text(&vec![]), "# convex primitive decomposition output\n");
}

#[test]
fn viewer_data_is_json() {
    let parts = vec![part(ball(), 3, &["0,0,0"], vec![[0, 0, 0]]), part(drum(), 4, &[], vec![])];
    let verts = vec!["1,2,3".to_string(), "4,5,6".to_string()];
    assert_eq!(
        viewer_data(&verts, &vec![[0, 1, 0], [1, 1, 0]], &parts),
        concat_all(&[
            "{\n  \"input\": {\n    \"vertices\": [1,2,3,4,5,6],\n    \"indices\": [0,1,0,1,1,0]\n  },\n",
            "  \"primitives\": [\n    {\"id\":3,\"kind\":\"sphere\",\"volume\":2,\"vertices\":[0,0,0],\"indices\":[0,0,0]},\n",
            "    {\"id\":4,\"kind\":\"cylinder\",\"volume\":2,\"vertices\":[],\"indices\":[]}\n  ]\n}\n",
        ])
    );
}

#[test]
fn kinds_and_masks() {
    assert_eq!(kind_tag(&ball()), "sphere");
    assert_eq!(kind_tag(&drum()), "cyl");
    assert_eq!(ball().kind(), PrimKind::Sphere);
    let all = PrimMask::all();
    assert_eq!(
        all_kinds(all),
        vec![PrimKind::Obb, PrimKind::Sphere, PrimKind::Cylinder, PrimKind::Capsule, PrimKind::Frustum, PrimKind::Prism]
    );
    // A sphere never beats a box, so it is not fitted beside one.
    assert_eq!(
        kinds_to_fit(all, 8),
        vec![PrimKind::Obb, PrimKind::Cylinder, PrimKind::Capsule, PrimKind::Frustum, PrimKind::Prism]
    );
    assert_eq!(kinds_to_fit(all, 7), vec![PrimKind::Obb]);
    let mut m = PrimMask::obb_only();
    m.obb = false;
    assert_eq!(all_kinds(m), vec![PrimKind::Obb]);
    m.sphere = true;
    assert_eq!(kinds_to_fit(m, 8), vec![PrimKind::Sphere]);
    assert_eq!(kinds_to_fit(m, 3), vec![PrimKind::Obb]);
}

#[test]
fn spheres_compete_by_distance() {
    let mut m = PrimMask::obb_only();
    assert_eq!(kinds_to_score(m, false), m);
    assert!(kinds_to_score(m, true).sphere && !kinds_to_score(m, true).prism);
    m.obb = false;
    m.cylinder = true;
    assert_eq!(kinds_to_score(m, true), m);
    assert_eq!(kinds_to_score(PrimMask::all(), false), PrimMask::all());
}

#[test]
fn axes_of_flat_clouds_are_skipped() {
    assert_eq!(axes_to_try([sc(1.0), sc(0.01), sc(0.05)], sc(0.05)), vec![0, 2]);
    assert_eq!(axes_to_try([sc(0.0), sc(0.0), sc(0.0)], sc(1.0)), vec![0]);
    assert_eq!(axis_orders().len(), 6);
    assert_eq!(axis_orders()[3], (1, 2, 0));
}

#[test]
fn fits_fall_back_to_all_vertices() {
    let (fit, all) = (vec![1, 2], vec![1, 2, 3, 4]);
    let p = fit_points(&fit, &all, 0);
    assert_eq!((p.vertices, p.with_proxies), (all.clone(), true));
    let p = fit_points(&fit, &all, 1);
    assert_eq!((p.vertices, p.with_proxies), (fit.clone(), true));
    let p = fit_points(&vec![1], &all, 1);
    assert_eq!((p.vertices, p.with_proxies), (all.clone(), false));
    let p = fit_points(&vec![1, 2, 4], &all, 0);
    assert_eq!(p.vertices, vec![1, 2, 4]);
    let p = fit_points(&vec![], &vec![1], 0);
    assert_eq!((p.vertices, p.with_proxies), (vec![1], false));
}

#[test]
fn shells_are_exposed_faces_and_their_vertices() {
    let faces = shell_faces(&scs(&[0.05, 0.06, f32::NAN]), sc(0.05));
    assert_eq!(faces, vec![false, true, false]);
    let verts = shell_vertices(&vec![[0, 1, 2], [2, 3, 4], [5, 0, 1]], &faces, 6);
    assert_eq!(verts, vec![false, false, true, true, true, false]);
    assert_eq!(shell_points(&vec![0, 2, 3, 4], &verts, 1), Some(vec![2, 3, 4]));
    assert_eq!(shell_points(&vec![0, 2, 3, 4], &verts, 0), None);
}

#[test]
fn faces_join_the_most_parallel_plane() {
    let dots = scs(&[0.97, 0.99, 0.99, 1.0]);
    let gaps = scs(&[0.0, 0.1, 0.1, 9.0]);
    assert_eq!(join_plane(sc(0.96), &dots, &gaps, sc(0.5)), Some(2));
    assert_eq!(join_plane(sc(0.995), &dots, &gaps, sc(0.5)), None);
    let mut p = Planes::new(3);
    assert_eq!(p.join(1, None), 0);
    assert_eq!(p.join(0, Some(0)), 0);
    assert_eq!(p.join(2, None), 1);
    assert_eq!((p.len(), p.count(0), p.count(1)), (2, 2, 1));
    assert_eq!((p.plane_of(0), p.plane_of(2)), (Some(0), Some(1)));
}

#[test]
fn support_planes_are_large_and_shared() {
    let order = support_order(&scs(&[5.0, 9.0, 7.0, 7.0, 1.0]), &vec![2, 1, 2, 3, 9], sc(5.0));
    assert_eq!(order, vec![2, 3, 0]);
    assert!(is_supported(Some(3), &order));
    assert!(!is_supported(Some(1), &order));
    assert!(!is_supported(None, &order));
}

#[test]
fn details_are_near_and_parallel_or_small() {
    let (dists, cosines) = (scs(&[9.0, 1.0, 1.0]), scs(&[1.0, 0.1, 0.9]));
    let big = detail_of(&dists, &cosines, sc(5.0), sc(2.0), sc(0.8), sc(3.0));
    assert_eq!(big, Some((2, DetailReason::Parallel)));
    let small = detail_of(&dists, &cosines, sc(3.0), sc(2.0), sc(0.8), sc(3.0));
    assert_eq!(small, Some((1, DetailReason::Small)));
    assert_eq!(detail_of(&dists, &cosines, sc(5.0), sc(0.5), sc(0.8), sc(3.0)), None);
    let (mask, parallel, few) = mask_details(&vec![None, Some(DetailReason::Small), Some(DetailReason::Parallel), Some(DetailReason::Small)]);
    assert_eq!((mask, parallel, few), (vec![true, false, false, false], 1, 2));
}

#[test]
fn masks_are_joined() {
    assert_eq!(combine_fit_mask(None, vec![true, false]), vec![true, false]);
    assert_eq!(
        combine_fit_mask(Some(vec![true, true, false, true]), vec![true, false, true]),
        vec![true, false, false, true]
    );
    assert_eq!(size_mask(&scs(&[1.0, 0.5, f32::NAN]), sc(1.0)), (vec![true, false, false], 2));
}

#[test]
fn the_generator_is_fixed() {
    let mut g = Lcg::new(0x9E3779B97F4A7C15);
    let mut s = 0x9E3779B97F4A7C15u64.wrapping_mul(6364136223846793005).wrapping_add(1);
    assert_eq!(g.0, s);
    for _ in 0..5 {
        s = s.wrapping_mul(6364136223846793005).wrapping_add(1442695040888963407);
        assert_eq!(g.step(), (s >> 32) as u32);
        assert_eq!(g.0, s);
    }
    let mut z = Lcg::new(0);
    assert_eq!(z.0, 1);
    assert_eq!(z.step(), 1817669548);
}

#[test]
fn upper_bound_is_the_first_entry_that_reaches() {
    let cum = scs(&[1.0, 2.0, 2.0, 5.0]);
    assert_eq!(upper_bound(&cum, sc(0.0)), 0);
    assert_eq!(upper_bound(&cum, sc(2.0)), 1);
    assert_eq!(upper_bound(&cum, sc(2.5)), 3);
    assert_eq!(upper_bound(&cum, sc(6.0)), 4);
    assert_eq!(upper_bound(&cum, sc(f32::NAN)), 4);
    assert_eq!(upper_bound(&vec![], sc(1.0)), 0);
}

#[test]
fn the_worst_primitive_has_the_greatest_distance() {
    assert_eq!(worst_primitive(&vec![4, 7, 9], &scs(&[1.0, 3.0, 3.0])), (7, sc(3.0)));
    assert_eq!(worst_primitive(&vec![4, 7], &scs(&[0.0, 0.0])), (4, sc(0.0)));
    assert_eq!(worst_primitive(&vec![], &vec![]), (0, sc(0.0)));
}

#[test]
fn parts_are_appended_with_an_offset() {
    let mut t = vec![[0, 1, 2]];
    append_part(&mut t, &vec![[0, 1, 2], [2, 1, 3]], 3);
    assert_eq!(t, vec![[0, 1, 2], [3, 4, 5], [5, 4, 6]]);
}
